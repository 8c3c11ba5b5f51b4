//! W3C trace context, ingested and propagated.
//!
//! Adopt the caller's `traceparent` if it sent one, mint a trace id if it did
//! not, and pass it down the mesh so that every hop logs the same id.
use crate::clock::wall_nanos;
use crate::text::all_hex;
use crate::text::chars_of;
use crate::text::hex_fixed;
use crate::text::hex_fixed_text;
use crate::text::is_hex;
use crate::text::is_white_space;
use crate::text::lemma_hex_fixed;
use crate::text::lemma_hex_fixed_zero;
use crate::text::lemma_split_first;
use crate::text::lemma_split_none;
use crate::text::lemma_to_lower_same;
use crate::text::lemma_trim_none;
use crate::text::lower;
use crate::text::lower_chars;
use crate::text::split;
use crate::text::split_chars;
use crate::text::string_of;
use crate::text::to_lower;
use crate::text::trim;
use crate::text::trim_chars;
use crate::text::views;
use std::collections::hash_map::DefaultHasher;
use std::hash::Hasher;
use vstd::bytes::spec_u32_to_le_bytes;
use vstd::bytes::spec_u64_to_le_bytes;
use vstd::bytes::u32_to_le_bytes;
use vstd::bytes::u64_to_le_bytes;
use vstd::prelude::*;
use vstd::std_specs::hash::DefaultHasherAdditionalSpecFns;
use vstd::string::StringExecFns;

verus! {

/// The W3C header. Lower-case because header lookups are.
pub const TRACEPARENT_HEADER: &'static str = "traceparent";

/// Returned so that a caller learns the id of a trace it did not name.
pub const TRACE_ID_HEADER: &'static str = "x-nebula-trace-id";

/// The only version this understands.
pub const VERSION: &'static str = "00";

/// How far apart the hashed blocks of one id stand.
pub const STRIDE: u64 = 0x9e37_79b9_7f4a_7c15;

/// One request's place in a distributed trace.
pub struct TraceContext {
    /// 32 lower-case hexadecimal characters, stable across the whole request.
    pub trace_id: String,
    /// 16 lower-case hexadecimal characters: the span that sent this request.
    pub parent_id: String,
    /// 2 hexadecimal characters, carried verbatim: the sampling decision
    /// belongs to whoever started the trace.
    pub flags: String,
}

#[verifier::ext_equal]
pub struct TraceView {
    pub trace_id: Seq<char>,
    pub parent_id: Seq<char>,
    pub flags: Seq<char>,
}

impl View for TraceContext {
    type V = TraceView;

    open spec fn view(&self) -> TraceView {
        TraceView { trace_id: self.trace_id@, parent_id: self.parent_id@, flags: self.flags@ }
    }
}

/// `len` hexadecimal characters.
pub open spec fn is_id(s: Seq<char>, len: nat) -> bool {
    &&& s.len() == len
    &&& forall|k: int| 0 <= k < s.len() ==> is_hex(#[trigger] s[k])
}

/// The explicit encoding of an invalid id.
pub open spec fn all_zero(s: Seq<char>) -> bool {
    forall|k: int| 0 <= k < s.len() ==> #[trigger] s[k] == '0'
}

/// Everything in it stands in lower case.
pub open spec fn is_lower(s: Seq<char>) -> bool {
    forall|k: int| 0 <= k < s.len() ==> lower(#[trigger] s[k]) == s[k]
}

/// `00-{32 hex}-{16 hex}-{2 hex}`, and nothing else.
pub open spec fn parsed(raw: Seq<char>) -> Option<TraceView> {
    let parts = split(trim(raw), '-');
    if parts.len() == 4 && parts[0] == VERSION@ && is_id(parts[1], 32) && is_id(parts[2], 16)
        && is_id(parts[3], 2) && !all_zero(parts[1]) && !all_zero(parts[2]) {
        Some(
            TraceView {
                trace_id: to_lower(parts[1]),
                parent_id: to_lower(parts[2]),
                flags: parts[3],
            },
        )
    } else {
        None
    }
}

/// What a header, if there is one, is adopted as.
pub open spec fn adopted(header: Option<&str>) -> Option<TraceView> {
    match header {
        Some(raw) => parsed(raw@),
        None => None,
    }
}

impl TraceView {
    /// The `traceparent` to send onward, naming `span` as the parent.
    pub open spec fn outgoing(self, span: Seq<char>) -> Seq<char> {
        VERSION@ + "-"@ + self.trace_id + "-"@ + span + "-"@ + self.flags
    }

    /// A context that can stand on the wire.
    pub open spec fn wf(self) -> bool {
        &&& is_id(self.trace_id, 32) && is_lower(self.trace_id) && !all_zero(self.trace_id)
        &&& is_id(self.flags, 2)
    }
}

/// One hashed block of an id: sixteen hexadecimal characters.
pub open spec fn block(seed: u64, nanos: u64, process: u32) -> Seq<char> {
    hex_fixed(
        DefaultHasher::spec_finish(
            seq![
                spec_u64_to_le_bytes(seed),
                spec_u64_to_le_bytes(nanos),
                spec_u32_to_le_bytes(process),
            ],
        ) as nat,
        16,
    )
}

/// A `len`-character id: hashed blocks, one after the other.
pub open spec fn minted(seed: u64, nanos: u64, process: u32, len: nat) -> Seq<char>
    decreases len,
{
    if len <= 16 {
        block(seed, nanos, process).take(len as int)
    } else {
        block(seed, nanos, process) + minted(
            seed.wrapping_add(STRIDE),
            nanos,
            process,
            (len - 16) as nat,
        )
    }
}

/// Where fresh ids come from: a counter, which makes them differ within a
/// process, beside the clock and the process number, which keep processes
/// apart.
///
/// A trace id is a correlation handle, not a secret: nothing authorizes on it.
pub struct Minter {
    next: u64,
    process: u32,
}

/// What a minter holds.
pub struct MinterView {
    pub next: u64,
    pub process: u32,
}

impl View for Minter {
    type V = MinterView;

    closed spec fn view(&self) -> MinterView {
        MinterView { next: self.next, process: self.process }
    }
}

impl MinterView {
    pub open spec fn advanced(self) -> MinterView {
        MinterView { next: self.next.wrapping_add(1), process: self.process }
    }

    pub open spec fn mints(self, nanos: u64, len: nat) -> Seq<char> {
        minted(self.next, nanos, self.process, len)
    }
}

impl Minter {
    pub fn new(process: u32) -> (out: Self)
        ensures
            out@ == (MinterView { next: 0, process }),
    {
        Minter { next: 0, process }
    }

    /// A `len`-character hexadecimal id, made at this moment.
    pub fn mint(&mut self, len: usize) -> (out: String)
        ensures
            is_id(out@, len as nat),
            is_lower(out@),
            exists|nanos: u64| out@ == #[trigger] old(self)@.mints(nanos, len as nat),
            final(self)@ == old(self)@.advanced(),
    {
        let nanos: u64 = wall_nanos();
        let ghost before = self@;
        let out = self.mint_at(nanos, len);
        proof {
            lemma_minted(before.next, nanos, before.process, len as nat);
            assert(out@ == before.mints(nanos, len as nat));
        }
        out
    }

    /// The id made at `nanos`.
    pub fn mint_at(&mut self, nanos: u64, len: usize) -> (out: String)
        ensures
            out@ == old(self)@.mints(nanos, len as nat),
            final(self)@ == old(self)@.advanced(),
    {
        let seed: u64 = self.next;
        self.next = seed.wrapping_add(1);
        mint_from(seed, nanos, self.process, len)
    }
}

/// One hashed block.
fn hash_block(seed: u64, nanos: u64, process: u32) -> (out: String)
    ensures
        out@ == block(seed, nanos, process),
{
    let mut hasher = DefaultHasher::new();
    let a = u64_to_le_bytes(seed);
    hasher.write(&a);
    let b = u64_to_le_bytes(nanos);
    hasher.write(&b);
    let c = u32_to_le_bytes(process);
    hasher.write(&c);
    assert(hasher@ =~= seq![
        spec_u64_to_le_bytes(seed),
        spec_u64_to_le_bytes(nanos),
        spec_u32_to_le_bytes(process),
    ]);
    hex_fixed_text(hasher.finish(), 16)
}

fn mint_from(seed: u64, nanos: u64, process: u32, len: usize) -> (out: String)
    ensures
        out@ == minted(seed, nanos, process, len as nat),
    decreases len,
{
    let mut out = hash_block(seed, nanos, process);
    proof {
        lemma_block(seed, nanos, process);
    }
    if len <= 16 {
        let chars = chars_of(out.as_str());
        let kept = crate::text::copy_range(&chars, 0, len);
        assert(kept@ =~= block(seed, nanos, process).take(len as int));
        string_of(&kept)
    } else {
        let rest = mint_from(seed.wrapping_add(STRIDE), nanos, process, len - 16);
        out.append(rest.as_str());
        out
    }
}

proof fn lemma_block(seed: u64, nanos: u64, process: u32)
    ensures
        is_id(block(seed, nanos, process), 16),
        is_lower(block(seed, nanos, process)),
{
    lemma_hex_fixed(
        DefaultHasher::spec_finish(
            seq![
                spec_u64_to_le_bytes(seed),
                spec_u64_to_le_bytes(nanos),
                spec_u32_to_le_bytes(process),
            ],
        ) as nat,
        16,
    );
}

proof fn lemma_minted(seed: u64, nanos: u64, process: u32, len: nat)
    ensures
        is_id(minted(seed, nanos, process, len), len),
        is_lower(minted(seed, nanos, process, len)),
    decreases len,
{
    lemma_block(seed, nanos, process);
    if len > 16 {
        lemma_minted(seed.wrapping_add(STRIDE), nanos, process, (len - 16) as nat);
    }
}

/// The context that a minter starts at the moments given.
pub open spec fn started(minter: MinterView, trace_nanos: u64, parent_nanos: u64) -> TraceView {
    TraceView {
        trace_id: minter.mints(trace_nanos, 32),
        parent_id: minter.advanced().mints(parent_nanos, 16),
        flags: "01"@,
    }
}

impl TraceContext {
    /// Adopts an incoming `traceparent`, or starts a fresh trace.
    ///
    /// A malformed header starts a new trace rather than failing the request:
    /// a caller's broken instrumentation is no reason to refuse to run its
    /// code.
    pub fn adopt(header: Option<&str>, minter: &mut Minter) -> (out: Self)
        ensures
            is_id(out@.trace_id, 32) && is_lower(out@.trace_id),
            is_id(out@.parent_id, 16) && is_lower(out@.parent_id),
            match adopted(header) {
                Some(context) => out@ == context && final(minter)@ == old(minter)@,
                None => (exists|t: u64, p: u64| out@ == #[trigger] started(old(minter)@, t, p))
                    && final(minter)@ == old(minter)@.advanced().advanced(),
            },
    {
        let t: u64 = wall_nanos();
        let p: u64 = wall_nanos();
        let ghost before = minter@;
        let out = TraceContext::adopt_at(header, minter, t, p);
        proof {
            match adopted(header) {
                Some(_) => {
                    law_an_adopted_context_is_usable(header->0@);
                },
                None => {
                    lemma_minted(before.next, t, before.process, 32);
                    lemma_minted(before.advanced().next, p, before.process, 16);
                    assert(out@ == started(before, t, p));
                },
            }
        }
        out
    }

    /// As [`TraceContext::adopt`], with the moments at which a fresh trace
    /// would mint its two ids.
    pub fn adopt_at(header: Option<&str>, minter: &mut Minter, trace_nanos: u64, parent_nanos: u64) -> (out: Self)
        ensures
            match adopted(header) {
                Some(context) => out@ == context && final(minter)@ == old(minter)@,
                None => out@ == started(old(minter)@, trace_nanos, parent_nanos) && final(minter)@
                    == old(minter)@.advanced().advanced(),
            },
    {
        if let Some(raw) = header {
            if let Some(context) = parse(raw) {
                return context;
            }
        }
        let trace_id = minter.mint_at(trace_nanos, 32);
        let parent_id = minter.mint_at(parent_nanos, 16);
        TraceContext { trace_id, parent_id, flags: String::from_str("01") }
    }

    /// The `traceparent` to send onward, naming `span_id` as the parent.
    ///
    /// The outgoing parent is *this* hop, not the one that called us: that is
    /// what makes the receiving side a child rather than a sibling.
    pub fn outgoing(&self, span_id: &str) -> (out: String)
        ensures
            out@ == self@.outgoing(span_id@),
    {
        let mut out = String::from_str(VERSION);
        out.append("-");
        out.append(self.trace_id.as_str());
        out.append("-");
        out.append(span_id);
        out.append("-");
        out.append(self.flags.as_str());
        out
    }
}

impl Clone for TraceContext {
    fn clone(&self) -> (out: Self)
        ensures
            out@ == self@,
    {
        TraceContext {
            trace_id: self.trace_id.clone(),
            parent_id: self.parent_id.clone(),
            flags: self.flags.clone(),
        }
    }
}

fn zero_chars(chars: &[char]) -> (out: bool)
    ensures
        out == all_zero(chars@),
{
    let mut i: usize = 0;
    while i < chars.len()
        invariant
            i <= chars@.len(),
            forall|k: int| 0 <= k < i ==> #[trigger] chars@[k] == '0',
        decreases chars@.len() - i,
    {
        if chars[i] != '0' {
            return false;
        }
        i += 1;
    }
    true
}

/// Whether `chars` is an id of `len` characters.
pub fn is_id_chars(chars: &[char], len: usize) -> (out: bool)
    ensures
        out == is_id(chars@, len as nat),
{
    chars.len() == len && all_hex(chars)
}

/// Reads a `traceparent`.
pub fn parse(raw: &str) -> (out: Option<TraceContext>)
    ensures
        match out {
            Some(context) => parsed(raw@) == Some(context@),
            None => parsed(raw@) is None,
        },
{
    let chars = chars_of(raw);
    let chars = trim_chars(&chars);
    let parts = split_chars(&chars, '-');
    let ghost fields = split(trim(raw@), '-');
    assert(views(parts@).len() == parts@.len());
    if parts.len() != 4 {
        return None;
    }
    assert forall|i: int| 0 <= i < 4 implies #[trigger] fields[i] == parts@[i]@ by {
        assert(views(parts@)[i] == parts@[i]@);
    }
    let version = &parts[0];
    proof {
        reveal_strlit("00");
    }
    if !(version.len() == 2 && version[0] == '0' && version[1] == '0') {
        assert(fields[0] != VERSION@);
        return None;
    }
    assert(fields[0] =~= VERSION@);
    if !is_id_chars(&parts[1], 32) || !is_id_chars(&parts[2], 16) || !is_id_chars(&parts[3], 2)
        || zero_chars(&parts[1]) || zero_chars(&parts[2]) {
        return None;
    }
    let trace_id = lower_chars(&parts[1]);
    let parent_id = lower_chars(&parts[2]);
    let out = TraceContext {
        trace_id: string_of(&trace_id),
        parent_id: string_of(&parent_id),
        flags: string_of(&parts[3]),
    };
    assert(out@ =~= parsed(raw@)->0);
    Some(out)
}

/// `tracing::Span::current().id()`: the number of the span this is called in,
/// which is never zero; nothing without a subscriber.
#[verifier::external_body]
fn span_number() -> (out: Option<u64>)
    ensures
        out matches Some(n) ==> n != 0,
{
    tracing::Span::current().id().map(|id| id.into_u64())
}

/// A span's number as the id it has on the wire.
pub fn span_id_of(number: u64) -> (out: String)
    ensures
        out@ == hex_fixed(number as nat, 16),
        is_id(out@, 16),
        is_lower(out@),
        number != 0 ==> !all_zero(out@),
{
    proof {
        lemma_hex_fixed(number as nat, 16);
        vstd::arithmetic::power2::lemma2_to64();
        assert(vstd::arithmetic::power::pow(16, 16) == 0x1_0000_0000_0000_0000) by {
            reveal_with_fuel(vstd::arithmetic::power::pow, 17);
        }
        if number != 0 && all_zero(hex_fixed(number as nat, 16)) {
            lemma_hex_fixed_zero(number as nat, 16);
        }
    }
    hex_fixed_text(number, 16)
}

/// What a span's number, if there is one, gives: the number in hexadecimal, and
/// otherwise an id that was minted.
pub open spec fn span_id_comes(
    number: Option<u64>,
    before: MinterView,
    after: MinterView,
    id: Seq<char>,
) -> bool {
    match number {
        Some(n) => id == hex_fixed(n as nat, 16) && after == before,
        None => after == before.advanced() && exists|nanos: u64|
            id == #[trigger] before.mints(nanos, 16),
    }
}

/// The id of the span with this number, or a fresh one where there is no span.
pub fn span_id_from(number: Option<u64>, minter: &mut Minter) -> (out: String)
    ensures
        span_id_comes(number, old(minter)@, final(minter)@, out@),
        is_id(out@, 16),
        is_lower(out@),
        number matches Some(n) && n != 0 ==> !all_zero(out@),
{
    match number {
        Some(n) => span_id_of(n),
        None => minter.mint(16),
    }
}

/// This hop's span id, for the outgoing `traceparent`: that of the span it runs
/// in.
///
/// There is a span number only when a subscriber is installed, so the fallback
/// is not hypothetical. Which span this is called in is not stated.
pub fn current_span_id(minter: &mut Minter) -> (out: String)
    ensures
        exists|number: Option<u64>|
            number != Some(0u64) && #[trigger] span_id_comes(
                number,
                old(minter)@,
                final(minter)@,
                out@,
            ),
        is_id(out@, 16),
        is_lower(out@),
{
    let number = span_number();
    let out = span_id_from(number, minter);
    assert(span_id_comes(number, old(minter)@, minter@, out@));
    out
}

/// An adopted context can stand on the wire.
pub proof fn law_an_adopted_context_is_usable(raw: Seq<char>)
    ensures
        parsed(raw) matches Some(context) ==> context.wf() && is_id(context.parent_id, 16)
            && is_lower(context.parent_id) && !all_zero(context.parent_id),
{
    if parsed(raw) is Some {
        let parts = split(trim(raw), '-');
        lemma_lowered(parts[1], 32);
        lemma_lowered(parts[2], 16);
    }
}

proof fn lemma_lowered(s: Seq<char>, len: nat)
    requires
        is_id(s, len),
    ensures
        is_id(to_lower(s), len),
        is_lower(to_lower(s)),
        all_zero(to_lower(s)) == all_zero(s),
{
    assert forall|k: int| 0 <= k < s.len() implies is_hex(#[trigger] to_lower(s)[k]) && lower(
        to_lower(s)[k],
    ) == to_lower(s)[k] && (to_lower(s)[k] == '0' <==> s[k] == '0') by {
        assert(is_hex(s[k]));
        assert(to_lower(s)[k] == lower(s[k]));
    }
    if all_zero(to_lower(s)) {
        assert forall|k: int| 0 <= k < s.len() implies #[trigger] s[k] == '0' by {
            assert(to_lower(s)[k] == '0');
        }
    }
}

proof fn lemma_no_dash(s: Seq<char>, len: nat)
    requires
        is_id(s, len),
    ensures
        !s.contains('-'),
        len > 0 ==> !is_white_space(s.last()),
{
    assert forall|k: int| 0 <= k < s.len() implies s[k] != '-' by {
        assert(is_hex(s[k]));
    }
    if len > 0 {
        assert(is_hex(s[len - 1]));
    }
}

/// What goes out is split back into the four fields it was made of.
proof fn lemma_outgoing(context: TraceView, span: Seq<char>)
    requires
        is_id(context.trace_id, 32),
        is_id(context.flags, 2),
        is_id(span, 16),
    ensures
        trim(context.outgoing(span)) == context.outgoing(span),
        split(context.outgoing(span), '-') == seq![
            VERSION@,
            context.trace_id,
            span,
            context.flags,
        ],
{
    reveal_strlit("00");
    reveal_strlit("-");
    let dash = seq!['-'];
    assert("-"@ =~= dash);
    let text = context.outgoing(span);
    lemma_no_dash(context.trace_id, 32);
    lemma_no_dash(span, 16);
    lemma_no_dash(context.flags, 2);
    assert(text[0] == '0');
    assert(text.last() == context.flags.last());
    lemma_trim_none(text);
    let tail3 = context.flags;
    let tail2 = span + dash + tail3;
    let tail1 = context.trace_id + dash + tail2;
    assert(text =~= VERSION@ + dash + tail1);
    assert(!VERSION@.contains('-'));
    lemma_split_first(VERSION@, '-', tail1);
    lemma_split_first(context.trace_id, '-', tail2);
    lemma_split_first(span, '-', tail3);
    lemma_split_none(tail3, '-');
    assert(split(text, '-') =~= seq![VERSION@, context.trace_id, span, context.flags]);
}

/// What goes out is what a receiver can parse: the next hop reads back the same
/// trace and the same sampling decision, with this hop as its parent.
pub proof fn law_what_goes_out_can_be_parsed(context: TraceView, span: Seq<char>)
    requires
        context.wf(),
        is_id(span, 16) && is_lower(span) && !all_zero(span),
    ensures
        parsed(context.outgoing(span)) == Some(
            TraceView { trace_id: context.trace_id, parent_id: span, flags: context.flags },
        ),
{
    lemma_outgoing(context, span);
    lemma_to_lower_same(context.trace_id);
    lemma_to_lower_same(span);
}

/// A trace that was started here is as valid on the wire as an adopted one,
/// unless its id hashed to nothing but zeros.
pub proof fn law_a_started_trace_is_usable(minter: MinterView, trace_nanos: u64, parent_nanos: u64)
    requires
        !all_zero(minter.mints(trace_nanos, 32)),
    ensures
        started(minter, trace_nanos, parent_nanos).wf(),
{
    reveal_strlit("01");
    lemma_minted(minter.next, trace_nanos, minter.process, 32);
}

/// Whether `text` has the shape of a `traceparent`: the version, and three groups of
/// hexadecimal digits, the first two of them not all zero, with dashes between.
pub open spec fn has_shape(text: Seq<char>) -> bool {
    &&& text.len() == 55
    &&& text[0] == '0' && text[1] == '0'
    &&& text[2] == '-' && text[35] == '-' && text[52] == '-'
    &&& is_id(text.subrange(3, 35), 32) && !all_zero(text.subrange(3, 35))
    &&& is_id(text.subrange(36, 52), 16) && !all_zero(text.subrange(36, 52))
    &&& is_id(text.subrange(53, 55), 2)
}

/// A `traceparent` is read exactly when it has the shape of one, with blanks around
/// it or not: both ids whole and in lower case, and the flags as they came.
#[verifier::rlimit(40)]
pub proof fn law_a_traceparent_is_read_by_its_shape(raw: Seq<char>)
    ensures
        ({
            let text = trim(raw);
            &&& parsed(raw) is Some <==> has_shape(text)
            &&& parsed(raw) is Some ==> parsed(raw)->0.trace_id == to_lower(text.subrange(3, 35))
                && parsed(raw)->0.parent_id == to_lower(text.subrange(36, 52))
                && parsed(raw)->0.flags == text.subrange(53, 55)
        }),
{
    reveal_strlit("00");
    let text = trim(raw);
    let parts = split(text, '-');
    if parsed(raw) is Some {
        crate::text::law_fields_join_to_the_text(text, '-');
        let a = parts[0];
        let b = parts[1];
        let c = parts[2];
        let d = parts[3];
        let three = parts.drop_first();
        let two = three.drop_first();
        let one = two.drop_first();
        assert(one.len() == 1 && one[0] == d);
        assert(two[0] == c && three[0] == b);
        assert(crate::text::joined_by(one, '-') == d);
        assert(crate::text::joined_by(two, '-') == c.push('-') + d);
        assert(crate::text::joined_by(three, '-') == b.push('-') + (c.push('-') + d));
        assert(text == a.push('-') + (b.push('-') + (c.push('-') + d)));
        assert(text.subrange(3, 35) =~= b);
        assert(text.subrange(36, 52) =~= c);
        assert(text.subrange(53, 55) =~= d);
        assert(has_shape(text));
    }
    if has_shape(text) {
        let b = text.subrange(3, 35);
        let c = text.subrange(36, 52);
        let d = text.subrange(53, 55);
        let dash = seq!['-'];
        lemma_no_dash(b, 32);
        lemma_no_dash(c, 16);
        lemma_no_dash(d, 2);
        let tail2 = c + dash + d;
        let tail1 = b + dash + tail2;
        assert(VERSION@ =~= seq!['0', '0']);
        assert(text =~= VERSION@ + dash + tail1);
        assert(!VERSION@.contains('-'));
        lemma_split_first(VERSION@, '-', tail1);
        lemma_split_first(b, '-', tail2);
        lemma_split_first(c, '-', d);
        lemma_split_none(d, '-');
        assert(parts =~= seq![VERSION@, b, c, d]);
    }
}

/// What goes out names the whole trace, the span given as the parent, and the flags
/// as they came.
pub proof fn law_what_goes_out_names_the_whole_trace(context: TraceView, span: Seq<char>)
    ensures
        context.outgoing(span) == seq!['0', '0', '-'] + context.trace_id + seq!['-'] + span + seq![
            '-',
        ] + context.flags,
{
    reveal_strlit("00");
    reveal_strlit("-");
    assert(VERSION@ + "-"@ =~= seq!['0', '0', '-']);
    assert("-"@ =~= seq!['-']);
}

/// An id is made of hashes of a counter, the time and the process, sixteen digits
/// each; the long one of two, whose counters stand apart.
pub proof fn law_an_id_is_hashed_from_all_that_tells_it_apart(minter: MinterView, nanos: u64)
    ensures
        ({
            let digits = |seed: u64|
                hex_fixed(
                    DefaultHasher::spec_finish(
                        seq![
                            spec_u64_to_le_bytes(seed),
                            spec_u64_to_le_bytes(nanos),
                            spec_u32_to_le_bytes(minter.process),
                        ],
                    ) as nat,
                    16,
                );
            &&& minter.mints(nanos, 16) == digits(minter.next)
            &&& minter.mints(nanos, 32) == digits(minter.next) + digits(
                minter.next.wrapping_add(0x9e37_79b9_7f4a_7c15),
            )
        }),
        minter.advanced().process == minter.process,
        minter.advanced().next == minter.next.wrapping_add(1),
{
    lemma_block(minter.next, nanos, minter.process);
    let other = minter.next.wrapping_add(STRIDE);
    lemma_block(other, nanos, minter.process);
    let a = block(minter.next, nanos, minter.process);
    let b = block(other, nanos, minter.process);
    assert(a.take(16) =~= a);
    assert(b.take(16) =~= b);
    assert(minted(other, nanos, minter.process, 16) == b);
    assert(minted(minter.next, nanos, minter.process, 32) == a + minted(
        other,
        nanos,
        minter.process,
        16,
    ));
}

/// A trace that starts here has two fresh ids and is sampled.
pub proof fn law_a_fresh_trace_has_two_ids(
    minter: MinterView,
    trace_nanos: u64,
    parent_nanos: u64,
)
    ensures
        ({
            let fresh = started(minter, trace_nanos, parent_nanos);
            &&& fresh.trace_id == minter.mints(trace_nanos, 32)
            &&& fresh.parent_id == minter.advanced().mints(parent_nanos, 16)
            &&& fresh.flags == "01"@
            &&& fresh.trace_id.len() == 32 && fresh.parent_id.len() == 16
        }),
{
    lemma_minted(minter.next, trace_nanos, minter.process, 32);
    lemma_minted(minter.advanced().next, parent_nanos, minter.process, 16);
}

/// A span with a number is known by it, in sixteen digits; without one it gets a
/// fresh id.
pub proof fn law_a_span_is_known_by_its_number(
    number: Option<u64>,
    before: MinterView,
    after: MinterView,
    id: Seq<char>,
)
    requires
        span_id_comes(number, before, after, id),
    ensures
        number is Some ==> id == hex_fixed(number->0 as nat, 16) && after == before,
        number is None ==> after == before.advanced() && exists|nanos: u64|
            id == #[trigger] before.mints(nanos, 16),
{
}

/// An id is so many hexadecimal digits; the empty id is zeros only; and lower case is
/// what lower-casing leaves as it is.
pub proof fn law_what_an_id_is(s: Seq<char>, len: nat)
    ensures
        is_id(s, len) <==> s.len() == len && forall|k: int|
            0 <= k < s.len() ==> is_hex(#[trigger] s[k]),
        all_zero(s) <==> s == Seq::new(s.len(), |k: int| '0'),
        is_lower(s) <==> to_lower(s) == s,
{
    let zeros = Seq::new(s.len(), |k: int| '0');
    if all_zero(s) {
        assert(s =~= zeros);
    }
    if s == zeros {
        assert forall|k: int| 0 <= k < s.len() implies #[trigger] s[k] == '0' by {
            assert(zeros[k] == '0');
        }
    }
    if is_lower(s) {
        lemma_to_lower_same(s);
    }
    if to_lower(s) == s {
        assert forall|k: int| 0 <= k < s.len() implies lower(#[trigger] s[k]) == s[k] by {
            assert(to_lower(s)[k] == lower(s[k]));
        }
    }
}

/// A context is seen whole.
pub proof fn law_a_context_is_seen_whole(context: TraceContext)
    ensures
        context@.trace_id == context.trace_id@ && context@.parent_id == context.parent_id@
            && context@.flags == context.flags@,
{
}

/// A header is adopted exactly when it can be read.
pub proof fn law_a_readable_header_is_adopted(header: Option<&str>)
    ensures
        header is None ==> adopted(header) is None,
        header is Some ==> adopted(header) == parsed(header->0@),
{
}

} // verus!

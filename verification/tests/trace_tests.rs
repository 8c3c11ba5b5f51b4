use nebula::trace::{current_span_id, parse, span_id_from, span_id_of, Minter, TraceContext};
use nebula::worker::trace_id_of;
use tracing::callsite::Identifier;
use tracing::field::{Field, FieldSet, Value};
use tracing::metadata::Kind;
use tracing::subscriber::Interest;
use tracing::{Callsite, Level, Metadata, Span};

const VALID: &str = "00-4bf92f3577b34da6a3ce929d0e0e4736-00f067aa0ba902b7-01";

fn minter() -> Minter {
    Minter::new(7)
}

#[test]
fn a_well_formed_header_is_adopted_whole() {
    let context = TraceContext::adopt(Some(VALID), &mut minter());
    assert_eq!(context.trace_id, "4bf92f3577b34da6a3ce929d0e0e4736");
    assert_eq!(context.parent_id, "00f067aa0ba902b7");
    assert_eq!(context.flags, "01");
}

#[test]
fn an_unsampled_flag_survives() {
    let context = TraceContext::adopt(
        Some("00-4bf92f3577b34da6a3ce929d0e0e4736-00f067aa0ba902b7-00"),
        &mut minter(),
    );
    assert_eq!(context.flags, "00");
}

#[test]
fn a_malformed_header_starts_a_new_trace_rather_than_failing() {
    let broken = [
        "",
        "not-a-traceparent",
        // Wrong version.
        "01-4bf92f3577b34da6a3ce929d0e0e4736-00f067aa0ba902b7-01",
        // Trace id one character short.
        "00-4bf92f3577b34da6a3ce929d0e0e473-00f067aa0ba902b7-01",
        // Non-hex.
        "00-4bf92f3577b34da6a3ce929d0e0e473z-00f067aa0ba902b7-01",
        // All zeros is no id.
        "00-00000000000000000000000000000000-00f067aa0ba902b7-01",
        "00-4bf92f3577b34da6a3ce929d0e0e4736-0000000000000000-01",
        // Trailing field.
        "00-4bf92f3577b34da6a3ce929d0e0e4736-00f067aa0ba902b7-01-extra",
    ];

    for raw in broken {
        let context = TraceContext::adopt(Some(raw), &mut minter());
        assert_eq!(context.trace_id.len(), 32, "{raw:?}");
        assert_ne!(
            context.trace_id, "4bf92f3577b34da6a3ce929d0e0e4736",
            "a rejected header must not leak into the new trace: {raw:?}"
        );
    }
}

#[test]
fn an_absent_header_mints_a_usable_id() {
    let context = TraceContext::adopt(None, &mut minter());
    assert_eq!(context.trace_id.len(), 32);
    assert_eq!(context.parent_id.len(), 16);
    assert!(context.trace_id.bytes().all(|b| b.is_ascii_hexdigit()));
    assert!(context.trace_id.bytes().any(|b| b != b'0'));
}

#[test]
fn minted_ids_do_not_repeat() {
    let mut minter = minter();
    let ids: std::collections::HashSet<String> = (0..1000).map(|_| minter.mint(32)).collect();
    assert_eq!(ids.len(), 1000, "minted trace ids collided");
}

#[test]
fn what_goes_out_is_what_a_receiver_can_parse() {
    let context = TraceContext::adopt(Some(VALID), &mut minter());
    let outgoing = context.outgoing("aaaaaaaaaaaaaaaa");

    let received = parse(&outgoing).expect("our own output must parse");
    assert_eq!(received.trace_id, context.trace_id);
    assert_eq!(
        received.parent_id, "aaaaaaaaaaaaaaaa",
        "the outgoing parent must be this hop, or the next span is a sibling"
    );
    assert_eq!(received.flags, context.flags);
}

#[test]
fn a_minted_context_also_round_trips() {
    let mut minter = minter();
    let context = TraceContext::adopt(None, &mut minter);
    let outgoing = context.outgoing(&current_span_id(&mut minter));
    assert_eq!(
        parse(&outgoing).map(|c| c.trace_id),
        Some(context.trace_id),
        "a generated id must be as valid on the wire as an adopted one"
    );
}

/// The worker reads what the gateway writes.
#[test]
fn the_worker_reads_the_traceparent_the_gateway_writes() {
    let context = TraceContext::adopt(
        Some("00-4bf92f3577b34da6a3ce929d0e0e4736-00f067aa0ba902b7-01"),
        &mut minter(),
    );
    let on_the_wire = context.outgoing("aaaaaaaaaaaaaaaa");

    assert_eq!(
        trace_id_of(Some(on_the_wire.as_bytes())),
        Some(context.trace_id)
    );
}

#[test]
fn a_minted_trace_survives_the_hop_too() {
    let context = TraceContext::adopt(None, &mut minter());
    let on_the_wire = context.outgoing("bbbbbbbbbbbbbbbb");

    assert_eq!(
        trace_id_of(Some(on_the_wire.as_bytes())),
        Some(context.trace_id)
    );
}

#[test]
fn an_absent_or_unusable_traceparent_is_simply_no_trace_id() {
    assert_eq!(trace_id_of(None), None);

    for bad in ["", "garbage", "00-short-00f067aa0ba902b7-01"] {
        assert_eq!(trace_id_of(Some(bad.as_bytes())), None, "{bad:?}");
    }
}

#[test]
fn a_header_is_adopted_in_lower_case() {
    let context = parse("00-4BF92F3577B34DA6A3CE929D0E0E4736-00F067AA0BA902B7-01")
        .expect("hex is hex in either case");
    assert_eq!(context.trace_id, "4bf92f3577b34da6a3ce929d0e0e4736");
    assert_eq!(context.parent_id, "00f067aa0ba902b7");
}

#[test]
fn an_id_is_a_function_of_its_seed_its_moment_and_its_process() {
    let a = minter().mint_at(1_000, 32);
    assert_eq!(a, minter().mint_at(1_000, 32));
    assert_eq!(a.len(), 32);
    assert_ne!(a, minter().mint_at(1_001, 32));
    assert_ne!(a, Minter::new(8).mint_at(1_000, 32));
    assert_eq!(minter().mint_at(1_000, 16), a[..16]);

    let mut one = minter();
    let first = one.mint_at(1_000, 32);
    assert_ne!(first, one.mint_at(1_000, 32));
}

#[test]
fn a_span_id_is_sixteen_hex_digits() {
    assert_eq!(span_id_of(0xab), "00000000000000ab");
    assert_eq!(span_id_of(u64::MAX), "ffffffffffffffff");
}

struct Site;

impl Callsite for Site {
    fn set_interest(&self, _interest: Interest) {}

    fn metadata(&self) -> &Metadata<'_> {
        unreachable!()
    }
}

fn hop() -> Span {
    let fields = FieldSet::new(&[], Identifier(&Site));
    let meta: &'static Metadata<'static> = Box::leak(Box::new(Metadata::new(
        "hop",
        "trace_tests",
        Level::INFO,
        None,
        None,
        None,
        fields,
        Kind::SPAN,
    )));
    let none: [(&Field, Option<&dyn Value>); 0] = [];
    Span::new(meta, &meta.fields().value_set(&none))
}

/// Outside any span the id is minted; inside one it is that span's.
#[test]
fn the_span_id_of_this_hop_is_the_current_spans() {
    let mut minter = minter();
    assert_eq!(current_span_id(&mut minter).len(), 16);

    tracing::subscriber::with_default(tracing_subscriber::Registry::default(), || {
        let span = hop();
        let number = span.id().expect("a registered span").into_u64();
        let inside = span.in_scope(|| current_span_id(&mut minter));
        assert_eq!(inside, format!("{number:016x}"));
    });
}

#[test]
fn a_started_trace_takes_its_ids_from_the_minter() {
    let mut one = minter();
    let context = TraceContext::adopt_at(None, &mut one, 10, 11);
    let mut two = minter();
    assert_eq!(context.trace_id, two.mint_at(10, 32));
    assert_eq!(context.parent_id, two.mint_at(11, 16));
    assert_eq!(context.flags, "01");
}

#[test]
fn the_flags_are_carried_verbatim() {
    let mut minter = Minter::new(1);
    let header = "00-4BF92f3577b34da6a3ce929d0e0e4736-00F067aa0ba902b7-0A";
    let context = TraceContext::adopt(Some(header), &mut minter);
    assert_eq!(context.flags, "0A");
    assert_eq!(context.trace_id, "4bf92f3577b34da6a3ce929d0e0e4736");
    assert_eq!(context.parent_id, "00f067aa0ba902b7");
    assert_eq!(
        context.outgoing("00000000000000ab"),
        "00-4bf92f3577b34da6a3ce929d0e0e4736-00000000000000ab-0A"
    );
}

#[test]
fn a_span_number_is_the_id_and_without_one_an_id_is_minted() {
    let mut minter = Minter::new(1);
    assert_eq!(span_id_from(Some(0xab), &mut minter), "00000000000000ab");
    // Nothing was minted, so the minter stands where a fresh one does.
    assert_eq!(minter.mint_at(5, 16), Minter::new(1).mint_at(5, 16));
    let minted = span_id_from(None, &mut minter);
    assert_eq!(minted.len(), 16);
    assert_ne!(minted, "00000000000000ab");
}

use nebula::wizer::{
    detail_of, exports_initializer, outcome, scratch_names, should_wizen, Run, WizerError,
    INIT_EXPORT,
};

/// A module with one function, exported under `name`.
fn exporting(name: &str) -> Vec<u8> {
    let mut out = b"\0asm\x01\0\0\0".to_vec();
    out.extend([0x01, 0x04, 0x01, 0x60, 0x00, 0x00]);
    out.extend([0x03, 0x02, 0x01, 0x00]);
    out.push(0x07);
    out.push(name.len() as u8 + 4);
    out.push(0x01);
    out.push(name.len() as u8);
    out.extend(name.as_bytes());
    out.extend([0x00, 0x00]);
    out.extend([0x0a, 0x04, 0x01, 0x02, 0x00, 0x0b]);
    out
}

#[test]
fn wat_text_is_never_wizened() {
    assert!(!should_wizen(b"(module)"));
    assert!(!should_wizen(b""));
    assert!(!should_wizen(b"not wasm at all"));
}

#[test]
fn a_binary_module_without_an_initializer_is_left_alone() {
    // Smallest valid module: magic + version, no sections.
    let empty = b"\0asm\x01\0\0\0";
    assert!(!should_wizen(empty));
}

#[test]
fn a_binary_module_exporting_the_initializer_is_selected() {
    assert!(should_wizen(&exporting(INIT_EXPORT)));
    assert!(!should_wizen(&exporting("handle")));
    assert!(!should_wizen(&exporting("_initialize2")));
}

#[test]
fn a_module_cut_off_before_its_exports_is_left_alone() {
    let whole = exporting(INIT_EXPORT);
    assert!(!should_wizen(&whole[..20]));
}

fn name(text: &str) -> Option<String> {
    Some(text.to_string())
}

#[test]
fn the_first_readable_export_that_decides_decides() {
    assert!(!exports_initializer(&vec![]));
    assert!(!exports_initializer(&vec![None, Some(vec![])]));
    assert!(exports_initializer(&vec![
        None,
        Some(vec![name("handle")]),
        Some(vec![name(INIT_EXPORT)]),
    ]));
    assert!(exports_initializer(&vec![Some(vec![name(INIT_EXPORT), None])]));
    // An export that cannot be read ends the search.
    assert!(!exports_initializer(&vec![Some(vec![None, name(INIT_EXPORT)])]));
}

#[test]
fn the_detail_is_the_last_line_that_was_printed() {
    assert_eq!(detail_of("one\ntwo\n  three \n\n"), "  three");
    assert_eq!(detail_of("only"), "only");
    assert_eq!(detail_of(" \n\t "), "no detail");
}

#[test]
fn each_ending_of_the_run_has_its_own_outcome() {
    assert!(outcome(Run::Exited {
        success: true,
        stderr: b"a warning".to_vec()
    })
    .is_ok());

    match outcome(Run::Exited {
        success: false,
        stderr: b"noise\nunknown import \xff\n".to_vec(),
    }) {
        Err(WizerError::Failed(detail)) => assert_eq!(detail, "unknown import \u{fffd}"),
        _ => panic!("expected a rejection"),
    }
    assert!(matches!(outcome(Run::Missing), Err(WizerError::Unavailable)));
    match outcome(Run::Failed("permission denied".to_string())) {
        Err(WizerError::Io(why)) => assert_eq!(why, "permission denied"),
        _ => panic!("expected the reason"),
    }
}

#[test]
fn each_error_says_what_it_is() {
    assert_eq!(
        WizerError::Failed("bad".to_string()).message(),
        "wizer rejected the module: bad"
    );
    assert_eq!(WizerError::Unavailable.message(), "wizer is not installed");
    assert_eq!(
        WizerError::Io("denied".to_string()).message(),
        "wizer could not be run: denied"
    );
}

#[test]
fn the_temporaries_are_named_by_process_and_count() {
    assert_eq!(
        scratch_names(41, 7),
        (
            "wizer-41-7.in.wasm".to_string(),
            "wizer-41-7.out.wasm".to_string()
        )
    );
}

#[test]
fn a_section_that_claims_more_exports_than_it_has_is_left_alone() {
    let mut wasm = b"\0asm\x01\0\0\0".to_vec();
    // Four thousand million exports, of which one is there.
    wasm.extend([0x07, 0x09, 0xff, 0xff, 0xff, 0xff, 0x0f, 0x01, b'a', 0x00, 0x00]);
    assert!(!should_wizen(&wasm));
}

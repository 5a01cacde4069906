use tectonic::xdvipdfmx::XdvipdfmxEngine;

#[test]
fn engine_defaults() {
    let e = XdvipdfmxEngine::new();
    assert!(e.is_compression_enabled());
    assert!(!e.uses_deterministic_tags());
    let d = XdvipdfmxEngine::default();
    assert!(d.is_compression_enabled());
}

#[test]
fn engine_builders_set_their_flag() {
    let e = XdvipdfmxEngine::new().with_compression(false).with_deterministic_tags(true);
    assert!(!e.is_compression_enabled());
    assert!(e.uses_deterministic_tags());
}

#[test]
fn paper_size_defaults_to_letter() {
    assert_eq!(XdvipdfmxEngine::paperspec(None), "letter");
    assert_eq!(XdvipdfmxEngine::paperspec(Some("a4".to_string())), "a4");
}

#[test]
fn exit_code_99_is_a_failure() {
    assert!(XdvipdfmxEngine::process_result(99).is_err());
    assert_eq!(XdvipdfmxEngine::process_result(0), Ok(0));
    assert_eq!(XdvipdfmxEngine::process_result(3), Ok(3));
}

use discovery_engine_core::state::{
    framed_state, legacy_interests_format, state_format, state_payload, LegacyInterests, StateFormat,
    STATE_VERSION,
};

#[test]
fn framed_states_read_back() {
    let framed = framed_state(&[9, 8, 7]);
    assert_eq!(framed, [STATE_VERSION, 9, 8, 7]);
    assert_eq!(state_format(&framed), StateFormat::Current);
    assert_eq!(state_payload(&framed), [9, 8, 7]);
}

#[test]
fn other_versions() {
    assert_eq!(state_format(&[]), StateFormat::Empty);
    assert_eq!(state_format(&[1, 5]), StateFormat::Outdated);
    assert_eq!(state_format(&[3]), StateFormat::Unsupported(3));
    assert_eq!(legacy_interests_format(&[0]), LegacyInterests::Empty);
    assert_eq!(legacy_interests_format(&[1, 2]), LegacyInterests::Versioned);
    assert_eq!(legacy_interests_format(&[5]), LegacyInterests::Unversioned);
    assert_eq!(legacy_interests_format(&[]), LegacyInterests::Unversioned);
}

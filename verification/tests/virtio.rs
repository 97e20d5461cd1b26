use p1c0_kernel::drivers::virtio::input::{
    check_queue_size, decode_event, features_accepted, negotiate_feature_bits, probe_step,
    Error as InputError, Event, EventType, KeyState, Keys, ProbeAction, ProbeEvent, ProbeState,
};
use p1c0_kernel::drivers::virtio::{check_device, device_id_from, DeviceId, Error, MAGIC_VALUE};

#[test]
fn virtio_device_identification() {
    assert!(check_device(MAGIC_VALUE, 2, 18).is_ok());
    assert!(matches!(check_device(0x1234_5678, 2, 18), Err(Error::InvalidMagic)));
    assert!(matches!(check_device(MAGIC_VALUE, 1, 18), Err(Error::UnsupportedVersion(1))));
    assert!(matches!(check_device(MAGIC_VALUE, 2, 0), Err(Error::EmptyDev)));
    assert!(matches!(check_device(MAGIC_VALUE, 2, 2), Err(Error::UnsupportedDeviceId)));
    assert!(matches!(check_device(MAGIC_VALUE, 2, 7), Err(Error::UnknownDeviceId)));
    assert_eq!(device_id_from(16), Some(DeviceId::GPU));
    assert_eq!(device_id_from(6), None);
}

#[test]
fn virtio_feature_negotiation() {
    let event_idx = 1u32 << 29;
    assert!(matches!(negotiate_feature_bits(event_idx | 0xff, 1), Ok((0, 1))));
    assert!(matches!(negotiate_feature_bits(0xff, 1), Err(Error::InvalidFeatures)));
    assert!(matches!(negotiate_feature_bits(event_idx, 0xfe), Err(Error::InvalidFeatures)));
    assert!(features_accepted(0b1011).is_ok());
    assert!(matches!(features_accepted(0b0111), Err(Error::InvalidFeatures)));
}

#[test]
fn virtio_queue_size_against_device_maximum() {
    assert!(check_queue_size(16).is_ok());
    assert!(check_queue_size(256).is_ok());
    assert!(matches!(check_queue_size(8), Err(Error::DeviceSpecificError)));
}

#[test]
fn virtio_input_codes() {
    assert_eq!(Keys::try_from(30), Ok(Keys::A));
    assert_eq!(Keys::try_from(248), Ok(Keys::Micmute));
    assert_eq!(Keys::try_from(84), Err(InputError::InvalidKey(84)));
    assert_eq!(Keys::try_from(0), Err(InputError::InvalidKey(0)));
    assert_eq!(EventType::try_from(0x11), Ok(EventType::Led));
    assert_eq!(EventType::try_from(0x06), Err(InputError::InvalidEventType(0x06)));
    assert_eq!(KeyState::try_from(1), Ok(KeyState::Pressed));
    assert_eq!(KeyState::try_from(0), Ok(KeyState::Released));
    assert_eq!(KeyState::try_from(2), Err(InputError::InvalidKeyState(2)));
}

#[test]
fn virtio_input_events_are_decoded() {
    let press_a = [1u8, 0, 30, 0, 1, 0, 0, 0];
    assert_eq!(
        decode_event(&press_a),
        Some(Event { ty: EventType::Key, key: Keys::A, state: KeyState::Pressed })
    );
    let release_enter = [1u8, 0, 28, 0, 0, 0, 0, 0];
    assert_eq!(
        decode_event(&release_enter),
        Some(Event { ty: EventType::Key, key: Keys::Enter, state: KeyState::Released })
    );
    // Synchronisation, other types and unknown codes are dropped.
    assert_eq!(decode_event(&[0u8, 0, 0, 0, 0, 0, 0, 0]), None);
    assert_eq!(decode_event(&[2u8, 0, 30, 0, 1, 0, 0, 0]), None);
    assert_eq!(decode_event(&[1u8, 0, 84, 0, 1, 0, 0, 0]), None);
    assert_eq!(decode_event(&[1u8, 0, 30, 0, 2, 0, 0, 0]), None);
    assert_eq!(decode_event(&[1u8, 0, 30, 0, 1, 0, 0, 1]), None);
}

#[test]
fn virtio_input_bring_up_goes_live() {
    let (state, action) = probe_step(ProbeState::Start, ProbeEvent::Begin);
    assert_eq!(state, ProbeState::AwaitFeatures0);
    assert!(matches!(action, ProbeAction::AcknowledgeAndReadFeatures0));
    let (state, action) = probe_step(state, ProbeEvent::Read(1 << 29));
    assert_eq!(state, ProbeState::AwaitFeatures1(1 << 29));
    assert!(matches!(action, ProbeAction::ReadFeatures1));
    let (state, action) = probe_step(state, ProbeEvent::Read(1));
    assert_eq!(state, ProbeState::AwaitFeaturesOk);
    assert!(matches!(action, ProbeAction::WriteFeatures(0, 1)));
    let (state, action) = probe_step(state, ProbeEvent::Read(0b1011));
    assert_eq!(state, ProbeState::AwaitEventqMax);
    assert!(matches!(action, ProbeAction::ReadEventqMax));
    let (state, action) = probe_step(state, ProbeEvent::Read(64));
    assert_eq!(state, ProbeState::AwaitStatusqMax);
    assert!(matches!(action, ProbeAction::ConfigureEventqReadStatusqMax));
    let (state, action) = probe_step(state, ProbeEvent::Read(16));
    assert_eq!(state, ProbeState::Live);
    assert!(matches!(action, ProbeAction::ConfigureStatusqGoLive));
    let (state, action) = probe_step(state, ProbeEvent::Read(0));
    assert_eq!(state, ProbeState::Live);
    assert!(matches!(action, ProbeAction::Nothing));
}

#[test]
fn virtio_input_bring_up_fails_on_bad_answers() {
    let (state, action) = probe_step(ProbeState::AwaitFeatures0, ProbeEvent::Read(0));
    assert_eq!(state, ProbeState::Failed);
    assert!(matches!(action, ProbeAction::Fail(Error::InvalidFeatures)));
    let (state, action) = probe_step(ProbeState::AwaitFeatures1(1 << 29), ProbeEvent::Read(2));
    assert_eq!(state, ProbeState::Failed);
    assert!(matches!(action, ProbeAction::Fail(Error::InvalidFeatures)));
    let (state, action) = probe_step(ProbeState::AwaitFeaturesOk, ProbeEvent::Read(0b0011));
    assert_eq!(state, ProbeState::Failed);
    assert!(matches!(action, ProbeAction::Fail(Error::InvalidFeatures)));
    let (state, action) = probe_step(ProbeState::AwaitEventqMax, ProbeEvent::Read(8));
    assert_eq!(state, ProbeState::Failed);
    assert!(matches!(action, ProbeAction::Fail(Error::DeviceSpecificError)));
    let (state, action) = probe_step(ProbeState::AwaitStatusqMax, ProbeEvent::Read(15));
    assert_eq!(state, ProbeState::Failed);
    assert!(matches!(action, ProbeAction::Fail(Error::DeviceSpecificError)));
}

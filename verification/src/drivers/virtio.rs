//! The checks a virtio device over memory-mapped I/O must pass before a
//! driver takes it.
use vstd::prelude::*;

pub mod input;

verus! {

/// The magic value at the start of the register block: "virt".
pub const MAGIC_VALUE: u32 = 0x74726976;

/// The only version of the register layout this driver speaks.
pub const SUPPORTED_VERSION: u32 = 2;

#[derive(Debug)]
pub enum Error {
    NodeNotCompatible,
    MissingAdtProperty(&'static str),
    MemoryError(crate::memory::Error),
    InvalidMagic,
    UnsupportedVersion(u32),
    UnsupportedDeviceId,
    UnknownDeviceId,
    DummyDevice,
    InitializationError,
    InvalidFeatures,
    DeviceSpecificError,
    EmptyDev,
}

/// Device types of the specification.
#[derive(Debug, Clone, Copy, PartialEq, Eq, Structural)]
pub enum DeviceId {
    Dummy,
    Network,
    Block,
    Console,
    Entropy,
    MemoryBalloon,
    SCSIHost,
    GPU,
    Input,
    Socket,
    Crypto,
}

/// The device type that the device ID register value `id` names.
pub open spec fn device_id_of(id: u32) -> Option<DeviceId> {
    if id == 0 {
        Some(DeviceId::Dummy)
    } else if id == 1 {
        Some(DeviceId::Network)
    } else if id == 2 {
        Some(DeviceId::Block)
    } else if id == 3 {
        Some(DeviceId::Console)
    } else if id == 4 {
        Some(DeviceId::Entropy)
    } else if id == 5 {
        Some(DeviceId::MemoryBalloon)
    } else if id == 8 {
        Some(DeviceId::SCSIHost)
    } else if id == 16 {
        Some(DeviceId::GPU)
    } else if id == 18 {
        Some(DeviceId::Input)
    } else if id == 19 {
        Some(DeviceId::Socket)
    } else if id == 20 {
        Some(DeviceId::Crypto)
    } else {
        None
    }
}

pub fn device_id_from(id: u32) -> (d: Option<DeviceId>)
    ensures
        d == device_id_of(id),
{
    match id {
        0 => Some(DeviceId::Dummy),
        1 => Some(DeviceId::Network),
        2 => Some(DeviceId::Block),
        3 => Some(DeviceId::Console),
        4 => Some(DeviceId::Entropy),
        5 => Some(DeviceId::MemoryBalloon),
        8 => Some(DeviceId::SCSIHost),
        16 => Some(DeviceId::GPU),
        18 => Some(DeviceId::Input),
        19 => Some(DeviceId::Socket),
        20 => Some(DeviceId::Crypto),
        _ => None,
    }
}

/// Checks the identification registers of a device: the magic value, the
/// layout version and the device type. Only input devices are driven; an
/// unused slot reads as the dummy device.
pub fn check_device(magic: u32, version: u32, device_id: u32) -> (result: Result<(), Error>)
    ensures
        magic != MAGIC_VALUE ==> result matches Err(Error::InvalidMagic),
        magic == MAGIC_VALUE && version != SUPPORTED_VERSION ==> (result matches Err(
            Error::UnsupportedVersion(v),
        ) && v == version),
        magic == MAGIC_VALUE && version == SUPPORTED_VERSION ==> match device_id_of(device_id) {
            Some(DeviceId::Input) => result is Ok,
            Some(DeviceId::Dummy) => result matches Err(Error::EmptyDev),
            Some(_) => result matches Err(Error::UnsupportedDeviceId),
            None => result matches Err(Error::UnknownDeviceId),
        },
{
    if magic != MAGIC_VALUE {
        return Err(Error::InvalidMagic);
    }
    if version != SUPPORTED_VERSION {
        return Err(Error::UnsupportedVersion(version));
    }
    match device_id_from(device_id) {
        Some(DeviceId::Input) => Ok(()),
        Some(DeviceId::Dummy) => Err(Error::EmptyDev),
        Some(_) => Err(Error::UnsupportedDeviceId),
        None => Err(Error::UnknownDeviceId),
    }
}

} // verus!

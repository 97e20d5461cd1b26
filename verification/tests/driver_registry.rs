use p1c0_kernel::drivers::{DriverRegistry, Error};

#[test]
fn drivers_register_once_per_compatible() {
    let mut registry: DriverRegistry<u32> = DriverRegistry::new();
    assert!(registry.register_driver("aic,2", 1).is_ok());
    assert!(registry.register_driver("virtio,mmio", 2).is_ok());
    match registry.register_driver("aic,2", 3) {
        Err(Error::DriverAlreadyRegistered(name)) => assert_eq!(name, "aic,2"),
        _ => panic!("a second driver for the same compatible is refused"),
    }
}

#[test]
fn device_without_compatible_cannot_be_probed() {
    let registry: DriverRegistry<u32> = DriverRegistry::new();
    assert!(matches!(registry.probe_device(None, |_| Ok(())), Err(Error::NoCompatibleInDevice)));
}

#[test]
fn driver_errors_are_passed_on() {
    let mut registry: DriverRegistry<u32> = DriverRegistry::new();
    registry.register_driver("aic,2", 1).unwrap();
    registry.register_driver("virtio,mmio", 2).unwrap();
    let list = vec!["apple,unknown".to_string(), "virtio,mmio".to_string()];
    let result = registry.probe_device(Some(&list), |id| {
        if *id == 2 {
            Err(Error::DeviceSpecificError("no magic".to_string()))
        } else {
            Ok(())
        }
    });
    match result {
        Err(Error::DeviceSpecificError(message)) => assert_eq!(message, "no magic"),
        _ => panic!("the driver's error comes back"),
    }
}

#[test]
fn probing_succeeds_with_a_registered_driver() {
    let mut registry: DriverRegistry<u32> = DriverRegistry::new();
    registry.register_driver("aic,2", 1).unwrap();
    let list = vec!["apple,other".to_string(), "aic,2".to_string()];
    assert!(registry.probe_device(Some(&list), |_| Ok(())).is_ok());
}

#[test]
fn probing_reports_no_driver_when_none_is_registered() {
    let mut registry: DriverRegistry<u32> = DriverRegistry::new();
    registry.register_driver("aic,2", 1).unwrap();
    let none = vec!["spi-1,spimc".to_string()];
    assert!(matches!(registry.probe_device(Some(&none), |_| Ok(())), Err(Error::NoDriverForDevice)));
}

use spooky_house::devices::{Socket, Thermometer};
use spooky_house::house::House;
use spooky_house::spooky::Spooky;

#[test]
fn test_device_state_strings() {
    let socket = Socket::new(2200, 0);
    assert!(!socket.is_on());
    assert_eq!(socket.get_current_power(), 0);

    let mut socket = Socket::new(2200, 50);
    assert_eq!(socket.get_current_power(), 110000);
    socket.switch(true);
    assert!(socket.is_on());
    socket.set_current(100);
    assert_eq!(socket.get_current_power(), 220000);
    socket.set_voltage(1100);
    assert_eq!(socket.get_current_power(), 110000);

    let mut thermo = Thermometer::new(233);
    assert_eq!(thermo.get_temperature(), 233);
    thermo.set_temperature(-55);
    assert_eq!(thermo.get_temperature(), -55);
}

#[test]
fn test_report_end_to_end() {
    let mut house = House::default();
    let mut spooky = Spooky::default();
    assert!(house.add_room("R1").is_ok());
    assert!(house.add_room("Kitchen").is_ok());
    assert!(house.add_device("R1", "Socket1").is_ok());
    assert!(house.add_device("R1", "Thermo").is_ok());
    assert!(house.add_device("Kitchen", "Thermo").is_ok());
    spooky.add_socket("R1", "Socket1", Socket::new(2200, 0));
    spooky.add_thermometer("R1", "Thermo", Thermometer::new(233));
    spooky.add_thermometer("Kitchen", "Thermo", Thermometer::new(1200));

    let report = house.generate_report(&spooky);
    let expected = "General report on House:\n\
                    \t Room: Kitchen\n\
                    \t\t Thermo => Temperature: 120.0\n\
                    \t Room: R1\n\
                    \t\t Socket1 => Socket is off, power: 0.00 W\n\
                    \t\t Thermo => Temperature: 23.3";
    assert_eq!(report, expected);

    let kitchen_at = report.find("\t Room: Kitchen").unwrap();
    let r1_at = report.find("\t Room: R1").unwrap();
    assert!(kitchen_at < r1_at);
    let socket1_at = report.find("Socket1").unwrap();
    let r1_thermo_at = report.rfind("Thermo").unwrap();
    assert!(r1_at < socket1_at && socket1_at < r1_thermo_at);
}

#[test]
fn test_report_missing_registry_entry() {
    let mut house = House::default();
    let mut spooky = Spooky::default();
    assert!(house.add_room("R1").is_ok());
    assert!(house.add_room("R2").is_ok());
    assert!(house.add_device("R1", "Ghost").is_ok());
    assert!(house.add_device("R2", "Thermo").is_ok());
    spooky.add_thermometer("R2", "Thermo", Thermometer::new(210));

    let report = house.generate_report(&spooky);
    let expected = "General report on House:\n\
                    \t Room: R1\n\
                    Error! Cannot find info about R1-Ghost\n\
                    \t Room: R2\n\
                    \t\t Thermo => Temperature: 21.0";
    assert_eq!(report, expected);
}

#[test]
fn test_report_ignores_registry_only_entries() {
    let mut house = House::default();
    let mut spooky = Spooky::default();
    assert!(house.add_room("R1").is_ok());
    spooky.add_thermometer("Elsewhere", "Thermo", Thermometer::new(100));

    let report = house.generate_report(&spooky);
    assert_eq!(report, "General report on House:\n\t Room: R1");
    assert!(!report.contains("Elsewhere"));
}

#[test]
fn test_report_empty_house() {
    let house = House::default();
    let spooky = Spooky::default();
    assert_eq!(house.generate_report(&spooky), "General report on House:");
}

#[test]
fn test_registry_last_write_wins() {
    let mut house = House::default();
    let mut spooky = Spooky::default();
    assert!(house.add_room("R1").is_ok());
    assert!(house.add_device("R1", "Thermo").is_ok());
    spooky.add_thermometer("R1", "Thermo", Thermometer::new(100));
    spooky.add_thermometer("R1", "Thermo", Thermometer::new(-15));

    let report = house.generate_report(&spooky);
    assert_eq!(
        report,
        "General report on House:\n\t Room: R1\n\t\t Thermo => Temperature: -1.5"
    );
}

#[test]
fn test_thermometer_resolves_before_socket() {
    let mut house = House::default();
    let mut spooky = Spooky::default();
    assert!(house.add_room("R1").is_ok());
    assert!(house.add_device("R1", "Dual").is_ok());
    spooky.add_socket("R1", "Dual", Socket::new(2200, 10));
    spooky.add_thermometer("R1", "Dual", Thermometer::new(55));

    let report = house.generate_report(&spooky);
    assert_eq!(
        report,
        "General report on House:\n\t Room: R1\n\t\t Dual => Temperature: 5.5"
    );
}

#[test]
fn test_report_line_count() {
    let mut house = House::default();
    let spooky = Spooky::default();
    assert!(house.add_room("R1").is_ok());
    assert!(house.add_room("R2").is_ok());
    assert!(house.add_device("R1", "a").is_ok());
    assert!(house.add_device("R1", "b").is_ok());
    assert!(house.add_device("R2", "c").is_ok());

    let report = house.generate_report(&spooky);
    // one header line, one line per room, one line per device
    assert_eq!(report.lines().count(), 1 + 2 + 3);
    assert_eq!(report.matches('\n').count(), 2 + 3);
}

#[test]
fn test_negative_power_rendering() {
    let mut house = House::default();
    let mut spooky = Spooky::default();
    assert!(house.add_room("R1").is_ok());
    assert!(house.add_device("R1", "Socket1").is_ok());
    let mut socket = Socket::new(100, -3);
    socket.switch(true);
    spooky.add_socket("R1", "Socket1", socket);

    let report = house.generate_report(&spooky);
    assert_eq!(
        report,
        "General report on House:\n\t Room: R1\n\t\t Socket1 => Socket is on, power: -3.00 W"
    );
}

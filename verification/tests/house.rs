use spooky_house::house::{House, HouseError};

#[test]
fn test_get_room() {
    let mut h = House::default();
    assert!(h.add_room("R1").is_ok());
    assert!(h.add_room("R2").is_ok());
    assert!(h.add_room("R2").map_or(true, |_| false));
    assert!(h.get_room("R1").map_or(false, |room| room.is_empty()));
    assert!(h.get_room("No such room").is_none());
}

#[test]
fn test_remove_room() {
    let mut h = House::default();
    assert!(h.add_room("R1").is_ok());
    assert!(h.add_room("R2").is_ok());
    assert!(h.remove_room("R2").map_or(false, |room| room.is_empty()));
    assert!(h.remove_room("No such room").is_none());
}

#[test]
fn test_room_list() {
    let mut h = House::default();
    assert!(h.get_room_name_list().iter().next().is_none());
    assert!(h.add_room("R1").is_ok());
    assert!(h.add_room("R2").is_ok());
    let names = h.get_room_name_list();
    let mut room_list = names.iter();
    assert!(room_list.next().map_or(false, |room| room.eq("R1")));
    assert!(room_list.next().map_or(false, |room| room.eq("R2")));
    assert!(room_list.next().is_none());
}

#[test]
fn test_add_device() {
    let mut h = House::default();
    assert!(h.add_room("R1").is_ok());
    assert!(h.add_room("R2").is_ok());
    assert!(h.add_device("R1", "Socket1").is_ok());
    assert!(h.add_device("R1", "Socket2").is_ok());
    assert!(h.add_device("R2", "Thermo").is_ok());
    assert!(h.add_device("R2", "Socket1").is_ok());
    let result = h.add_device("R1", "Socket2");
    if let Err(e) = result {
        if let HouseError::DeviceNameClash = e {
            assert!(true);
        } else {
            panic!("Error should be DeviceClashError.");
        }
    } else {
        panic!("There is the same device in the room but result is Ok.");
    }
    if let Err(e) = h.add_device("No such room", "Device") {
        if let HouseError::NoRoomName = e {
            assert!(true);
        } else {
            panic!("Error should be NoRoomName");
        }
    } else {
        panic!("There is no room with this name.")
    }
    let devices = h.get_device_list_in_room("R2").unwrap();
    let mut device_list = devices.iter();
    assert!(device_list
        .next()
        .map_or(false, |d| d.starts_with("Socket")));
    assert!(device_list
        .next()
        .map_or(false, |d| d.starts_with("Thermo")));
    assert!(device_list.next().is_none());
}

#[test]
fn test_remove_device() {
    let mut h = House::default();
    assert!(h.add_room("R1").is_ok());
    assert!(h.add_room("R2").is_ok());
    assert!(h.add_device("R1", "Socket1").is_ok());
    assert!(h.add_device("R1", "Socket2").is_ok());
    assert!(h.add_device("R2", "Thermo").is_ok());
    assert!(h.remove_device("R1", "Socket2"));
    assert!(!h.remove_device("R1", "no such device"));
    assert!(!h.remove_device("No such room", "Irrelevant"));
    let devices = h.get_device_list_in_room("R1").unwrap();
    let mut device_list = devices.iter();
    assert!(device_list
        .next()
        .map_or(false, |device| device.eq("Socket1")));
    assert!(device_list.next().is_none());
}

#[test]
fn test_add_room_repeat_keeps_state() {
    let mut h = House::default();
    assert!(h.add_room("Kitchen").is_ok());
    assert!(h.add_device("Kitchen", "Thermo").is_ok());
    let r = h.add_room("Kitchen");
    assert!(matches!(r, Err(HouseError::RoomNameClash)));
    let devices = h.get_device_list_in_room("Kitchen").unwrap();
    assert_eq!(devices.len(), 1);
    assert_eq!(devices[0], "Thermo");
    assert_eq!(h.get_room_name_list().len(), 1);
}

#[test]
fn test_remove_room_returns_device_set() {
    let mut h = House::default();
    assert!(h.add_room("R1").is_ok());
    assert!(h.add_device("R1", "Thermo").is_ok());
    assert!(h.add_device("R1", "Socket1").is_ok());
    let removed = h.remove_room("R1").unwrap();
    assert_eq!(removed, vec!["Socket1".to_string(), "Thermo".to_string()]);
    assert!(h.get_room("R1").is_none());
    assert!(h.remove_room("R1").is_none());
}

#[test]
fn test_room_list_is_sorted_not_insertion_order() {
    let mut h = House::default();
    assert!(h.add_room("R2").is_ok());
    assert!(h.add_room("R1").is_ok());
    let names = h.get_room_name_list();
    assert_eq!(names, vec!["R1".to_string(), "R2".to_string()]);
}

#[test]
fn test_same_device_name_in_two_rooms() {
    let mut h = House::default();
    assert!(h.add_room("R1").is_ok());
    assert!(h.add_room("R2").is_ok());
    assert!(h.add_device("R1", "Socket1").is_ok());
    assert!(h.add_device("R2", "Socket1").is_ok());
    assert_eq!(h.get_device_list_in_room("R1").unwrap(), vec!["Socket1".to_string()]);
    assert_eq!(h.get_device_list_in_room("R2").unwrap(), vec!["Socket1".to_string()]);
}

#[test]
fn test_remove_device_true_exactly_once() {
    let mut h = House::default();
    assert!(h.add_room("R1").is_ok());
    assert!(h.add_device("R1", "Socket1").is_ok());
    assert!(h.remove_device("R1", "Socket1"));
    assert!(!h.remove_device("R1", "Socket1"));
    assert!(h.add_device("R1", "Socket1").is_ok());
    assert!(h.remove_device("R1", "Socket1"));
}

#[test]
fn test_device_list_is_sorted() {
    let mut h = House::default();
    assert!(h.add_room("R1").is_ok());
    assert!(h.add_device("R1", "b").is_ok());
    assert!(h.add_device("R1", "a").is_ok());
    assert!(h.add_device("R1", "c").is_ok());
    let devices = h.get_device_list_in_room("R1").unwrap();
    assert_eq!(devices, vec!["a".to_string(), "b".to_string(), "c".to_string()]);
}

#[test]
fn test_error_messages() {
    assert_eq!(HouseError::RoomNameClash.message(), "Room Name Clash");
    assert_eq!(HouseError::DeviceNameClash.message(), "Device Name Clash");
    assert_eq!(HouseError::NoRoomName.message(), "No such Room");
    assert_eq!(HouseError::NoDeviceName.message(), "No such Device");
}

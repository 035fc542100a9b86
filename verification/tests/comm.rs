use rover_nav::comm::{CommOutcome, CommunicationModule};
use rover_nav::terrain::{classify_terrain, Terrain};
use rover_nav::text::same_text;

#[test]
fn new_link_is_not_connected() {
    let module = CommunicationModule::new();
    assert!(!module.is_connected);
}

#[test]
fn connect_and_disconnect_set_the_flag() {
    let mut module = CommunicationModule::new();
    module.connect();
    assert!(module.is_connected);
    module.connect();
    assert!(module.is_connected);
    module.disconnect();
    assert!(!module.is_connected);
}

#[test]
fn data_goes_out_only_while_connected() {
    let mut module = CommunicationModule::new();
    assert_eq!(module.send_data("Rover status report"), None);
    module.connect();
    assert_eq!(module.send_data("Rover status report"), Some("Rover status report"));
    module.disconnect();
    assert_eq!(module.send_data("anything"), None);
}

#[test]
fn commands_drive_the_link() {
    let mut module = CommunicationModule::new();
    assert_eq!(module.communicate("send_data", "report"), CommOutcome::NotConnected);
    assert!(!module.is_connected);
    assert_eq!(module.communicate("connect", "report"), CommOutcome::Connected);
    assert!(module.is_connected);
    assert_eq!(module.communicate("send_data", "report"), CommOutcome::Sent);
    assert!(module.is_connected);
    assert_eq!(module.communicate("disconnect", "report"), CommOutcome::Disconnected);
    assert!(!module.is_connected);
}

#[test]
fn unknown_command_changes_nothing() {
    let mut module = CommunicationModule::new();
    assert_eq!(module.communicate("reboot", "report"), CommOutcome::InvalidCommand);
    assert!(!module.is_connected);
    module.connect();
    assert_eq!(module.communicate("", "report"), CommOutcome::InvalidCommand);
    assert_eq!(module.communicate("Connect", "report"), CommOutcome::InvalidCommand);
    assert!(module.is_connected);
}

#[test]
fn terrain_names_are_recognised() {
    assert_eq!(classify_terrain("rocky"), Some(Terrain::Rocky));
    assert_eq!(classify_terrain("sand"), Some(Terrain::Sand));
    assert_eq!(classify_terrain("ice"), None);
    assert_eq!(classify_terrain(""), None);
    assert_eq!(classify_terrain("Rocky"), None);
}

#[test]
fn same_text_compares_characters() {
    assert!(same_text("connect", "connect"));
    assert!(!same_text("connect", "connect "));
    assert!(!same_text("a", "b"));
    assert!(same_text("", ""));
}

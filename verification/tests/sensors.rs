use rover_nav::sensors::Sensors;

#[test]
fn new_rover_has_both_sensors() {
    let sensors = Sensors::new();
    assert!(sensors.has_camera);
    assert!(sensors.has_lidar);
}

#[test]
fn one_reporting_sensor_is_enough() {
    let sensors = Sensors::new();
    assert!(!sensors.detect_obstacle(false, false));
    assert!(sensors.detect_obstacle(true, false));
    assert!(sensors.detect_obstacle(false, true));
    assert!(sensors.detect_obstacle(true, true));
}

#[test]
fn missing_sensor_reports_nothing() {
    let blind = Sensors { has_camera: false, has_lidar: true };
    assert!(!blind.detect_with_camera(true));
    assert!(blind.detect_with_lidar(true));
    assert!(!blind.detect_obstacle(true, false));
    assert!(blind.detect_obstacle(true, true));
    let none = Sensors { has_camera: false, has_lidar: false };
    assert!(!none.detect_obstacle(true, true));
}

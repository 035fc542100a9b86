//! Which sensors the rover carries, and when their samples count as an
//! obstacle ahead.

use vstd::prelude::*;

verus! {

/// The sensors that the rover is fitted with.
#[derive(Clone, Copy, Debug, PartialEq, Eq)]
pub struct Sensors {
    pub has_camera: bool,
    pub has_lidar: bool,
}

impl Sensors {
    /// A rover with both a camera and a LiDAR.
    pub fn new() -> (sensors: Sensors)
        ensures
            sensors.has_camera,
            sensors.has_lidar,
    {
        Sensors { has_camera: true, has_lidar: true }
    }

    /// Whether the camera reports an obstacle, given that its latest sample
    /// shows one or not: a camera that is not fitted reports nothing.
    pub fn detect_with_camera(&self, sample_hit: bool) -> (detected: bool)
        ensures
            detected == (self.has_camera && sample_hit),
    {
        self.has_camera && sample_hit
    }

    /// Whether the LiDAR reports an obstacle, given that its latest sample
    /// shows one or not: a LiDAR that is not fitted reports nothing.
    pub fn detect_with_lidar(&self, sample_hit: bool) -> (detected: bool)
        ensures
            detected == (self.has_lidar && sample_hit),
    {
        self.has_lidar && sample_hit
    }

    /// Whether an obstacle is ahead: one fitted sensor that reports it is
    /// enough.
    pub fn detect_obstacle(&self, camera_hit: bool, lidar_hit: bool) -> (detected: bool)
        ensures
            detected == ((self.has_camera && camera_hit) || (self.has_lidar && lidar_hit)),
    {
        let camera_result: bool = self.detect_with_camera(camera_hit);
        let lidar_result: bool = self.detect_with_lidar(lidar_hit);
        camera_result || lidar_result
    }
}

} // verus!

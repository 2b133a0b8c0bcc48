use factory_planner::player::CamMode;

#[test]
fn cam_mode_toggles_and_labels() {
    assert_eq!(CamMode::Follow.toggle(), CamMode::Free);
    assert_eq!(CamMode::Free.toggle(), CamMode::Follow);
    assert_eq!(CamMode::Follow.toggle().toggle(), CamMode::Follow);
    assert_eq!(CamMode::Follow.label(), "Cam · Follow");
    assert_eq!(CamMode::Free.label(), "Cam · Free");
}

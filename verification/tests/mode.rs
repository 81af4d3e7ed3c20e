use alioth::backend::drm::mode::{select_mode, ModeInfo, MODE_TYPE_PREFERRED};
use alioth::output::Mode;

fn mode(width: u16, height: u16, refresh: i32, mode_type: u32) -> ModeInfo {
    ModeInfo { width, height, refresh, mode_type }
}

#[test]
fn preferred_flag_is_the_one_of_the_driver() {
    assert_eq!(MODE_TYPE_PREFERRED, drm::control::ModeTypeFlags::PREFERRED.bits());
    assert!(mode(1920, 1080, 60_000, 0x48).is_preferred());
    assert!(!mode(1920, 1080, 60_000, 0x40).is_preferred());
    assert!(!mode(1920, 1080, 60_000, 0).is_preferred());
}

#[test]
fn output_mode_keeps_size_and_refresh() {
    assert_eq!(
        mode(1920, 1080, 60_000, 0).output_mode(),
        Mode { width: 1920, height: 1080, refresh: 60_000 }
    );
}

#[test]
fn preferred_mode_is_selected() {
    let modes = vec![
        mode(640, 480, 59_940, 0x40),
        mode(1920, 1080, 60_000, 0x48),
        mode(1280, 720, 60_000, 0x48),
    ];
    assert_eq!(select_mode(&modes), Some(1));
}

#[test]
fn first_mode_without_preference() {
    let modes = vec![mode(640, 480, 59_940, 0x40), mode(1920, 1080, 60_000, 0x40)];
    assert_eq!(select_mode(&modes), Some(0));
    assert_eq!(select_mode(&Vec::new()), None);
}

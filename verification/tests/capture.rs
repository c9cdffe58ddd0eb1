use macos_media_toolkit::camera::{
    self, find_device, plan_format, select_format, CameraError, DeviceChoice, FormatCandidate,
    FormatPlan,
};
use macos_media_toolkit::screen::{self, choose_display, ScreenError};
use macos_media_toolkit::Authorization;

fn format_of(width: i32, height: i32, rate_ok: bool, subtype_ok: bool) -> FormatCandidate {
    FormatCandidate {
        width,
        height,
        rate_ok,
        subtype_ok,
    }
}

#[test]
fn camera_access_is_resolved_before_opening() {
    assert_eq!(
        camera::authorization(Some(Authorization::Denied)),
        Authorization::Denied
    );
    assert_eq!(camera::authorization(None), Authorization::NotDetermined);
    assert!(camera::should_prompt(Authorization::NotDetermined));
    assert!(!camera::should_prompt(Authorization::Restricted));
    assert_eq!(camera::check_access(Authorization::Authorized), Ok(()));
    assert_eq!(
        camera::check_access(Authorization::NotDetermined),
        Err(CameraError::AccessNotGranted)
    );
    assert_eq!(
        camera::check_access(Authorization::Denied),
        Err(CameraError::AccessDenied)
    );
    assert_eq!(
        camera::check_access(Authorization::Restricted),
        Err(CameraError::AccessRestricted)
    );
}

#[test]
fn devices_are_found_by_part_of_their_name() {
    let names = vec![
        "FaceTime HD Camera".to_string(),
        "Caméra Ünique".to_string(),
        "External HD".to_string(),
    ];
    assert_eq!(find_device(None, &names), Ok(DeviceChoice::SystemDefault));
    assert_eq!(
        find_device(Some("HD"), &names),
        Ok(DeviceChoice::Listed(0))
    );
    assert_eq!(
        find_device(Some("éra Ü"), &names),
        Ok(DeviceChoice::Listed(1))
    );
    assert_eq!(
        find_device(Some("External HD"), &names),
        Ok(DeviceChoice::Listed(2))
    );
    assert_eq!(find_device(Some(""), &names), Ok(DeviceChoice::Listed(0)));
    assert_eq!(
        find_device(Some("hd"), &names),
        Err(CameraError::DeviceNotFound)
    );
    assert_eq!(
        find_device(Some("External HD2"), &names),
        Err(CameraError::DeviceNotFound)
    );
    assert_eq!(find_device(Some("x"), &[]), Err(CameraError::DeviceNotFound));
}

#[test]
fn rate_capability_outranks_size() {
    let formats = [
        format_of(1280, 720, false, true),
        format_of(3840, 2160, true, false),
        format_of(1920, 1080, true, false),
        format_of(1920, 1080, true, true),
        format_of(1920, 1080, true, true),
        format_of(640, 480, true, true),
    ];
    assert_eq!(select_format(&formats, 1280, 720), Some(3));
    assert_eq!(plan_format(&formats, 1280, 720), FormatPlan::Activate(3));
    assert_eq!(select_format(&formats, 640, 480), Some(5));
    assert_eq!(select_format(&formats[..1], 1280, 720), Some(0));
    assert_eq!(plan_format(&formats[..1], 1280, 720), FormatPlan::PinOnly(0));
    assert_eq!(select_format(&formats, 1280, 4000), None);
    assert_eq!(plan_format(&formats, 4000, 720), FormatPlan::KeepActive);
    assert_eq!(select_format(&[], 1, 1), None);
}

#[test]
fn the_smaller_area_wins_among_equals() {
    let formats = [
        format_of(2000, 2000, false, true),
        format_of(2000, 1500, false, false),
        format_of(1500, 2000, false, false),
    ];
    assert_eq!(select_format(&formats, 1000, 1000), Some(1));
}

#[test]
fn screen_access_is_granted_or_not() {
    assert_eq!(screen::authorization(true), Authorization::Authorized);
    assert_eq!(screen::authorization(false), Authorization::NotDetermined);
    assert_eq!(screen::access_answer(true), Authorization::Authorized);
    assert_eq!(screen::access_answer(false), Authorization::Denied);
    assert_eq!(screen::check_access(Authorization::Authorized), Ok(()));
    assert_eq!(
        screen::check_access(Authorization::Denied),
        Err(ScreenError::AccessNotGranted)
    );
}

#[test]
fn displays_are_chosen_by_index() {
    assert_eq!(choose_display(Some(0), &[7, 9], 9), Ok(0));
    assert_eq!(choose_display(Some(1), &[7, 9], 7), Ok(1));
    assert_eq!(
        choose_display(Some(2), &[7, 9], 7),
        Err(ScreenError::DisplayOutOfRange {
            index: 2,
            available: 2,
        })
    );
}

#[test]
fn the_main_display_is_captured_by_default() {
    assert_eq!(choose_display(None, &[7, 9, 4], 7), Ok(0));
    assert_eq!(choose_display(None, &[7, 9, 4], 4), Ok(2));
    assert_eq!(
        choose_display(None, &[7, 9], 8),
        Err(ScreenError::NoMainDisplay { available: 2 })
    );
    assert_eq!(
        choose_display(None, &[], 1),
        Err(ScreenError::NoMainDisplay { available: 0 })
    );
}

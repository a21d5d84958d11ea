use screen_streamer::capture::{desired_output_name, detect, select_output, should_probe, Backend};
use screen_streamer::error::Error;

fn candidates(names: &[Option<&str>]) -> Vec<(u32, Option<String>)> {
    names
        .iter()
        .enumerate()
        .map(|(i, n)| (i as u32, n.map(str::to_owned)))
        .collect()
}

#[test]
fn no_preference_picks_the_first_output() {
    let c = candidates(&[Some("DP-1"), Some("eDP-1")]);
    assert_eq!(select_output(&c, None), Some(&0));
}

#[test]
fn matching_preference_picks_that_output_regardless_of_order() {
    let c = candidates(&[Some("DP-1"), Some("eDP-1"), Some("HDMI-A-1")]);
    assert_eq!(select_output(&c, Some("HDMI-A-1")), Some(&2));
}

#[test]
fn unmatched_preference_falls_back_to_the_first_output() {
    let c = candidates(&[Some("DP-1"), Some("eDP-1")]);
    assert_eq!(select_output(&c, Some("DP-2")), Some(&0));
}

#[test]
fn empty_candidate_list_selects_nothing() {
    let c: Vec<(u32, Option<String>)> = Vec::new();
    assert_eq!(select_output(&c, None), None);
    assert_eq!(select_output(&c, Some("DP-1")), None);
}

#[test]
fn an_unnamed_output_can_still_be_the_fallback() {
    // A compositor whose wl_output predates version 4 (no Name event)
    // reports no name at all; without a preference it should still be
    // usable as the (only) candidate.
    let c = candidates(&[None]);
    assert_eq!(select_output(&c, None), Some(&0));
}

#[test]
fn the_first_of_two_outputs_with_one_name_is_picked() {
    let c = candidates(&[None, Some("DP-1"), Some("DP-1")]);
    assert_eq!(select_output(&c, Some("DP-1")), Some(&1));
}

#[test]
fn an_empty_output_setting_is_no_preference() {
    assert_eq!(desired_output_name(None), None);
    assert_eq!(desired_output_name(Some(String::new())), None);
    assert_eq!(desired_output_name(Some("DP-1".into())), Some("DP-1".to_owned()));
}

#[test]
fn screencopy_is_preferred_to_the_portal() {
    assert!(matches!(detect(true, true), Ok(Backend::Screencopy)));
    assert!(matches!(detect(true, false), Ok(Backend::Screencopy)));
    assert!(matches!(detect(false, true), Ok(Backend::Portal)));
    assert!(matches!(detect(false, false), Err(Error::NoBackend)));
}

#[test]
fn a_compositor_is_asked_if_either_variable_is_set() {
    assert!(should_probe(true, false));
    assert!(should_probe(false, true));
    assert!(!should_probe(false, false));
}

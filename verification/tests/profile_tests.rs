use midi_profiles::midi_controller::Application;
use midi_profiles::midi_controller::ControllerProfile;
use midi_profiles::midi_controller::Group;
use midi_profiles::midi_controller::get_groups_for_profile;

fn profile_with(names: &[&str]) -> ControllerProfile {
    let groups: Vec<Group> = names.iter().map(|n| Group::new(n)).collect();
    ControllerProfile::new("default", groups)
}

#[test]
fn group_accessors() {
    let g = Group::new("master");
    assert_eq!(g.get_name(), "master");
    assert_eq!(g.get_volume(), &None);
    assert_eq!(g.get_mute(), &None);

    let bound = Group::with_bindings(
        "fader one",
        Some(String::from("cc-7")),
        Some(String::from("note-16")),
    );
    assert_eq!(bound.get_name(), "fader one");
    assert_eq!(bound.get_volume(), &Some(String::from("cc-7")));
    assert_eq!(bound.get_mute(), &Some(String::from("note-16")));
}

#[test]
fn application_name() {
    let a = Application::new("Music Player");
    assert_eq!(a.get_name(), "Music Player");
}

#[test]
fn profile_name() {
    let p = profile_with(&["a", "b"]);
    assert_eq!(p.get_name(), "default");
}

#[test]
fn new_profile_seeds_empty_lists() {
    let p = profile_with(&["low", "mid", "high"]);
    let entries = p.get_groups();
    assert_eq!(entries.len(), 3);
    assert_eq!(entries[0].0.get_name(), "low");
    assert_eq!(entries[1].0.get_name(), "mid");
    assert_eq!(entries[2].0.get_name(), "high");
    for entry in entries.iter() {
        assert!(entry.1.is_empty());
    }
}

#[test]
fn new_dedups_equal_group_values() {
    let groups = vec![Group::new("low"), Group::new("low"), Group::new("mid")];
    let p = ControllerProfile::new("default", groups);
    let entries = p.get_groups();
    assert_eq!(entries.len(), 2);
    assert_eq!(entries[0].0.get_name(), "low");
    assert_eq!(entries[1].0.get_name(), "mid");
}

#[test]
fn add_application_appends_single() {
    let mut p = profile_with(&["low", "mid"]);
    p.add_application("mid", Application::new("Browser"));
    let entries = p.get_groups();
    assert!(entries[0].1.is_empty());
    assert_eq!(entries[1].1.len(), 1);
    assert_eq!(entries[1].1[0].get_name(), "Browser");
}

#[test]
fn add_application_preserves_order() {
    let mut p = profile_with(&["low"]);
    p.add_application("low", Application::new("Browser"));
    p.add_application("low", Application::new("Music Player"));
    let entries = p.get_groups();
    assert_eq!(entries[0].1.len(), 2);
    assert_eq!(entries[0].1[0].get_name(), "Browser");
    assert_eq!(entries[0].1[1].get_name(), "Music Player");
}

#[test]
fn add_application_allows_duplicates() {
    let mut p = profile_with(&["low"]);
    p.add_application("low", Application::new("Browser"));
    p.add_application("low", Application::new("Browser"));
    let entries = p.get_groups();
    assert_eq!(entries[0].1.len(), 2);
    assert_eq!(entries[0].1[0].get_name(), "Browser");
    assert_eq!(entries[0].1[1].get_name(), "Browser");
}

#[test]
fn add_application_unknown_group_no_op() {
    let mut p = profile_with(&["low", "mid"]);
    p.add_application("low", Application::new("Browser"));
    p.add_application("nonexistent", Application::new("Game"));
    let entries = p.get_groups();
    assert_eq!(entries.len(), 2);
    assert_eq!(entries[0].1.len(), 1);
    assert_eq!(entries[0].1[0].get_name(), "Browser");
    assert!(entries[1].1.is_empty());
}

#[test]
fn add_application_on_empty_profile() {
    let mut p = ControllerProfile::new("empty", Vec::new());
    p.add_application("low", Application::new("Browser"));
    assert!(p.get_groups().is_empty());
}

#[test]
fn duplicate_name_groups_are_distinct_keys() {
    let g1 = Group::with_bindings("fader", Some(String::from("cc-7")), None);
    let g2 = Group::with_bindings("fader", Some(String::from("cc-8")), None);
    let mut p = ControllerProfile::new("default", vec![g1, g2]);
    assert_eq!(p.get_groups().len(), 2);

    p.add_application("fader", Application::new("Browser"));
    let entries = p.get_groups();
    assert_eq!(entries[0].1.len(), 1);
    assert_eq!(entries[0].1[0].get_name(), "Browser");
    assert!(entries[1].1.is_empty());
}

#[test]
fn round_trip_reproduces_profile() {
    let g1 = Group::with_bindings("low", Some(String::from("cc-7")), Some(String::from("note-16")));
    let g2 = Group::new("mid");
    let mut p = ControllerProfile::new("studio", vec![g1, g2]);
    p.add_application("low", Application::new("Browser"));
    p.add_application("low", Application::new("Music Player"));
    p.add_application("mid", Application::new("Game"));

    let (name, records) = p.to_parts();
    let rebuilt = ControllerProfile::from_parts(&name, records);

    assert_eq!(rebuilt.get_name(), p.get_name());
    let before = p.get_groups();
    let after = rebuilt.get_groups();
    assert_eq!(after.len(), before.len());
    for (b, a) in before.iter().zip(after.iter()) {
        assert_eq!(a.0.get_name(), b.0.get_name());
        assert_eq!(a.0.get_volume(), b.0.get_volume());
        assert_eq!(a.0.get_mute(), b.0.get_mute());
        assert_eq!(a.1.len(), b.1.len());
        for (x, y) in b.1.iter().zip(a.1.iter()) {
            assert_eq!(y.get_name(), x.get_name());
        }
    }
}

#[test]
fn to_parts_lists_records_in_order() {
    let g1 = Group::with_bindings("low", Some(String::from("cc-7")), None);
    let g2 = Group::new("mid");
    let mut p = ControllerProfile::new("studio", vec![g1, g2]);
    p.add_application("mid", Application::new("Game"));

    let (name, records) = p.to_parts();
    assert_eq!(name, "studio");
    assert_eq!(records.len(), 2);
    assert_eq!(records[0].0, "low");
    assert_eq!(records[0].1, Some(String::from("cc-7")));
    assert_eq!(records[0].2, None);
    assert!(records[0].3.is_empty());
    assert_eq!(records[1].0, "mid");
    assert_eq!(records[1].3, vec![String::from("Game")]);
}

#[test]
fn from_parts_keeps_first_of_duplicate_records() {
    let records = vec![
        (String::from("low"), None, None, vec![String::from("Browser")]),
        (String::from("low"), None, None, vec![String::from("Game")]),
        (String::from("mid"), Some(String::from("cc-7")), None, Vec::new()),
    ];
    let p = ControllerProfile::from_parts("studio", records);
    let entries = p.get_groups();
    assert_eq!(entries.len(), 2);
    assert_eq!(entries[0].0.get_name(), "low");
    assert_eq!(entries[0].1.len(), 1);
    assert_eq!(entries[0].1[0].get_name(), "Browser");
    assert_eq!(entries[1].0.get_name(), "mid");
}

#[test]
fn get_groups_for_profile_lists_names() {
    let mut p = profile_with(&["low", "mid"]);
    p.add_application("low", Application::new("Browser"));
    p.add_application("low", Application::new("Game"));
    let listing = get_groups_for_profile(&p);
    assert_eq!(listing.len(), 2);
    assert_eq!(listing[0].0, "low");
    assert_eq!(listing[0].1, vec![String::from("Browser"), String::from("Game")]);
    assert_eq!(listing[1].0, "mid");
    assert!(listing[1].1.is_empty());
}

#[test]
fn empty_names_are_accepted() {
    let mut p = profile_with(&[""]);
    p.add_application("", Application::new(""));
    let entries = p.get_groups();
    assert_eq!(entries.len(), 1);
    assert_eq!(entries[0].0.get_name(), "");
    assert_eq!(entries[0].1[0].get_name(), "");
}

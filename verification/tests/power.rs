use raven_init::power::{
    choose_state, enter_steps, hibernate, marker_contents, offers, publish_at_boot, resume_device,
    suspend, SleepStep, HIBERNATE_STATE, PREFERRED_STATES, RESUME_PATH, RUN_DIR, STATE_MARKER,
};

#[test]
fn preferred_states_are_ordered_deep_first() {
    assert_eq!(PREFERRED_STATES[0], "mem");
}

#[test]
fn the_marker_lives_under_the_run_dir() {
    assert!(STATE_MARKER.starts_with(RUN_DIR));
}

#[test]
fn suspend_can_never_fall_through_to_hibernation() {
    assert!(
        !PREFERRED_STATES.contains(&HIBERNATE_STATE),
        "hibernation is not a fallback; it is {}",
        "hibernate"
    );
}

#[test]
fn hibernation_is_refused_unless_something_will_read_the_image_back() {
    let path = "/tmp/resume";
    assert_eq!(
        resume_device(path, Some("259:2\n"), "root=UUID=1234 resume=UUID=abcd rw\n")
            .expect("should hibernate"),
        "259:2"
    );

    let refusal =
        resume_device(path, Some("0:0\n"), "root=UUID=1234 rw\n").expect_err("must refuse");
    assert!(refusal.contains("No resume device"), "{}", refusal);

    let refusal = resume_device(path, Some("259:2\n"), "root=UUID=1234 resume=UUID=abcd noresume rw\n")
        .expect_err("must refuse");
    assert!(refusal.contains("noresume"), "{}", refusal);

    assert_eq!(
        resume_device(path, Some("0:0\n"), "root=UUID=1234 resume=/dev/mapper/swap rw\n")
            .expect("should hibernate"),
        "/dev/mapper/swap"
    );

    assert!(resume_device(path, Some("0:0\n"), "root=UUID=1234 resume= rw\n").is_err());
    assert!(resume_device(path, None, "root=UUID=1234 rw\n").is_err());
}

#[test]
fn the_best_offered_state_is_chosen() {
    assert_eq!(choose_state("freeze mem disk\n"), Ok("mem"));
    assert_eq!(choose_state("freeze disk\n"), Ok("freeze"));
    assert_eq!(
        choose_state("disk\n"),
        Err("No usable sleep state: /sys/power/state offers 'disk', none of [\"mem\", \"freeze\"]"
            .to_string())
    );
    assert_eq!(suspend(Some("mem")), Ok("mem"));
    assert_eq!(
        suspend(None),
        Err("Cannot read /sys/power/state -- this kernel has no suspend support".to_string())
    );
    assert!(offers("freeze mem disk", "disk"));
    assert!(!offers("freeze mem", "disk"));
}

#[test]
fn hibernation_needs_both_a_resume_device_and_the_kernel() {
    assert_eq!(hibernate(Some("259:2\n"), "rw", Some("mem disk\n")), Ok("259:2".to_string()));
    assert_eq!(
        hibernate(Some("259:2\n"), "rw", Some("mem\n")),
        Err("This kernel does not offer hibernation: /sys/power/state does not list 'disk'"
            .to_string())
    );
    assert!(hibernate(Some("0:0"), "rw", Some("mem disk")).unwrap_err().contains(RESUME_PATH));
}

#[test]
fn the_marker_and_the_steps() {
    assert_eq!(publish_at_boot(), "awake\n");
    assert_eq!(marker_contents("sleeping"), "sleeping\n");
    let steps = enter_steps();
    assert_eq!(steps[3], SleepStep::WriteState);
    assert_eq!(steps[4], SleepStep::PublishAwake);
    assert_eq!(steps.len(), 6);
}

use raven_init::persist::{with_enabled, EditError, PersistError};

const INIT_TOML: &str = "# The console.\n[[services]]\nname = \"getty\"\nexec = \"/bin/agetty\"\n\n# Remote logins, off until asked for.\n[[services]]\nname = \"sshd\"\nexec = \"/sbin/sshd\"\nenabled = false\n";

#[test]
fn the_flag_is_set_and_the_comments_stay() {
    let text = with_enabled(INIT_TOML, "sshd", true).expect("sshd is defined");
    assert!(text.contains("# The console."));
    assert!(text.contains("# Remote logins, off until asked for."));
    assert!(text.contains("enabled = true"));
    assert!(!text.contains("enabled = false"));
    let again = with_enabled(&text, "getty", false).expect("getty is defined");
    assert!(again.contains("enabled = false"));
    assert!(again.contains("enabled = true"));
}

#[test]
fn a_file_that_does_not_define_the_service_is_refused() {
    assert_eq!(with_enabled(INIT_TOML, "cupsd", true), Err(PersistError::Edit(EditError::NotFound)));
    assert_eq!(
        with_enabled("[system]\nhostname = \"x\"\n", "sshd", true),
        Err(PersistError::Edit(EditError::NoServices))
    );
    assert!(matches!(with_enabled("[[services]\nname = ", "sshd", true), Err(PersistError::Invalid(_))));
}

#[test]
fn only_the_named_entry_changes() {
    let text = "[[services]]\nname = \"a\"\nenabled = true\n\n[[services]]\nname = \"b\"\nenabled = true\n\n[[services]]\nname = \"b\"\nenabled = true\n";
    let out = with_enabled(text, "b", false).expect("b is defined");
    assert_eq!(
        out,
        "[[services]]\nname = \"a\"\nenabled = true\n\n[[services]]\nname = \"b\"\nenabled = false\n\n[[services]]\nname = \"b\"\nenabled = true\n"
    );
}

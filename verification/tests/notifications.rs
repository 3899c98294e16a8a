use backup_core::notify::{send_load_media_email, TemplateRegistry};

#[test]
fn test_template_register() {
    let registry = TemplateRegistry::new().expect("template registration failed");

    assert!(registry.has_template("verify_ok_template"));
    assert!(registry.has_template("verify_err_template"));

    assert!(registry.has_template("sync_ok_template"));
    assert!(registry.has_template("sync_err_template"));

    assert!(registry.has_template("tape_backup_ok_template"));
    assert!(registry.has_template("tape_backup_err_template"));

    assert!(registry.has_template("package_update_template"));

    assert!(registry.has_template("certificate_renewal_err_template"));
}

#[test]
fn unknown_template_is_absent() {
    let registry = TemplateRegistry::new().unwrap();
    assert!(!registry.has_template("no_such_template"));
    assert!(!registry.has_template(""));
}

#[test]
fn load_media_email_drive_with_reason() {
    let mail = send_load_media_email(
        false,
        "/dev/nst0",
        "tape-007",
        "admin@example.com",
        Some(String::from("wrong label")),
    );
    assert_eq!(mail.to, "admin@example.com");
    assert_eq!(mail.subject, "Load Media 'tape-007' request for drive '/dev/nst0'");
    assert_eq!(
        mail.text,
        "The drive has the wrong or no tape(s) inserted. Error:\nwrong label\n\n\
         Please insert the requested media into the backup drive.\n\nDrive: /dev/nst0\n\
         Media: tape-007\n"
    );
}

#[test]
fn load_media_email_changer_without_reason() {
    let mail = send_load_media_email(true, "changer0", "tape-001", "root@pam", None);
    assert_eq!(mail.subject, "Load Media 'tape-001' request for changer 'changer0'");
    assert_eq!(
        mail.text,
        "Please insert the requested media into the changer.\n\nChanger: changer0\n\
         Media: tape-001\n"
    );
}

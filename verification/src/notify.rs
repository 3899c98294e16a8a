//! Operator notifications: the fixed set of mail templates the server
//! renders job reports with, and the composed texts of the mails the
//! core itself writes.

use vstd::prelude::*;

use crate::strutil::{chars_to_string, push_chars};

verus! {

pub const VERIFY_OK_TEMPLATE: &'static str = r###"

Job ID:    {{job.id}}
Datastore: {{job.store}}

Verification successful.


Please visit the web interface for further details:

<https://{{fqdn}}:{{port}}/#DataStore-{{job.store}}>

"###;

pub const VERIFY_ERR_TEMPLATE: &'static str = r###"

Job ID:    {{job.id}}
Datastore: {{job.store}}

Verification failed on these snapshots/groups:

{{#each errors}}
  {{this~}}
{{/each}}


Please visit the web interface for further details:

<https://{{fqdn}}:{{port}}/#pbsServerAdministration:tasks>

"###;

pub const SYNC_OK_TEMPLATE: &'static str = r###"

Job ID:             {{job.id}}
Datastore:          {{job.store}}
{{#if job.remote~}}
Remote:             {{job.remote}}
Remote Store:       {{job.remote-store}}
{{else~}}
Local Source Store: {{job.remote-store}}
{{/if}}
Synchronization successful.


Please visit the web interface for further details:

<https://{{fqdn}}:{{port}}/#DataStore-{{job.store}}>

"###;

pub const SYNC_ERR_TEMPLATE: &'static str = r###"

Job ID:             {{job.id}}
Datastore:          {{job.store}}
{{#if job.remote~}}
Remote:             {{job.remote}}
Remote Store:       {{job.remote-store}}
{{else~}}
Local Source Store: {{job.remote-store}}
{{/if}}
Synchronization failed: {{error}}


Please visit the web interface for further details:

<https://{{fqdn}}:{{port}}/#pbsServerAdministration:tasks>

"###;

pub const PACKAGE_UPDATES_TEMPLATE: &'static str = r###"
Proxmox Backup Server has the following updates available:
{{#each updates }}
  {{Package}}: {{OldVersion}} -> {{Version~}}
{{/each }}

To upgrade visit the web interface:

<https://{{fqdn}}:{{port}}/#pbsServerAdministration:updates>

"###;

pub const TAPE_BACKUP_OK_TEMPLATE: &'static str = r###"

{{#if id ~}}
Job ID:     {{id}}
{{/if~}}
Datastore:  {{job.store}}
Tape Pool:  {{job.pool}}
Tape Drive: {{job.drive}}

{{#if snapshot-list ~}}
Snapshots included:

{{#each snapshot-list~}}
{{this}}
{{/each~}}
{{/if}}
Duration: {{duration}}
{{#if used-tapes }}
Used Tapes:
{{#each used-tapes~}}
{{this}}
{{/each~}}
{{/if}}
Tape Backup successful.


Please visit the web interface for further details:

<https://{{fqdn}}:{{port}}/#DataStore-{{job.store}}>

"###;

pub const TAPE_BACKUP_ERR_TEMPLATE: &'static str = r###"

{{#if id ~}}
Job ID:     {{id}}
{{/if~}}
Datastore:  {{job.store}}
Tape Pool:  {{job.pool}}
Tape Drive: {{job.drive}}

{{#if snapshot-list ~}}
Snapshots included:

{{#each snapshot-list~}}
{{this}}
{{/each~}}
{{/if}}
{{#if used-tapes }}
Used Tapes:
{{#each used-tapes~}}
{{this}}
{{/each~}}
{{/if}}
Tape Backup failed: {{error}}


Please visit the web interface for further details:

<https://{{fqdn}}:{{port}}/#pbsServerAdministration:tasks>

"###;

pub const ACME_CERTIFICATE_ERR_RENEWAL: &'static str = r###"

Proxmox Backup Server was not able to renew a TLS certificate.

Error: {{error}}

Please visit the web interface for further details:

<https://{{fqdn}}:{{port}}/#pbsCertificateConfiguration>

"###;

#[derive(Clone, Copy, Debug, PartialEq, Eq, Structural)]
pub enum NotifyError {
    /// A template did not compile.
    TemplateSyntax,
}

#[verifier::external_type_specification]
#[verifier::external_body]
pub struct ExHandlebars<'reg>(handlebars::Handlebars<'reg>);

#[verifier::external_type_specification]
#[verifier::external_body]
pub struct ExTemplateError(handlebars::TemplateError);

/// The names registered in a handlebars registry.
pub uninterp spec fn registry_templates(hb: handlebars::Handlebars<'static>) -> Set<Seq<char>>;

/// Whether handlebars compiles a template text; the outcome is a
/// function of the text alone.
pub uninterp spec fn template_compiles(tpl: Seq<char>) -> bool;

/// Relies on handlebars::Handlebars::new: a fresh registry holds no
/// templates.
#[verifier::external_body]
fn registry_new() -> (hb: handlebars::Handlebars<'static>)
    ensures
        registry_templates(hb) == Set::<Seq<char>>::empty(),
{
    handlebars::Handlebars::new()
}

/// Relies on Handlebars::set_strict_mode: toggles rendering strictness
/// and leaves the registered templates untouched.
#[verifier::external_body]
fn registry_set_strict_mode(hb: &mut handlebars::Handlebars<'static>, enabled: bool)
    ensures
        registry_templates(*final(hb)) == registry_templates(*old(hb)),
{
    hb.set_strict_mode(enabled);
}

/// Relies on Handlebars::register_escape_fn with handlebars::no_escape:
/// replaces the escape function and leaves the registered templates
/// untouched.
#[verifier::external_body]
fn registry_disable_escaping(hb: &mut handlebars::Handlebars<'static>)
    ensures
        registry_templates(*final(hb)) == registry_templates(*old(hb)),
{
    hb.register_escape_fn(handlebars::no_escape);
}

/// Relies on Handlebars::register_template_string: whether the template
/// compiles is a function of its text alone; on success the name is
/// added to the registered templates, on a syntax error the registry is
/// unchanged.
#[verifier::external_body]
fn registry_register(
    hb: &mut handlebars::Handlebars<'static>,
    name: &str,
    tpl: &str,
) -> (r: Result<(), handlebars::TemplateError>)
    ensures
        r is Ok <==> template_compiles(tpl@),
        r is Ok ==> registry_templates(*final(hb)) == registry_templates(*old(hb)).insert(
            name@,
        ),
        r is Err ==> registry_templates(*final(hb)) == registry_templates(*old(hb)),
{
    hb.register_template_string(name, tpl)
}

/// Relies on Handlebars::has_template: whether a name is registered.
#[verifier::external_body]
fn registry_has(hb: &handlebars::Handlebars<'static>, name: &str) -> (r: bool)
    ensures
        r == registry_templates(*hb).contains(name@),
{
    hb.has_template(name)
}

/// The names of the job-report templates the server registers.
pub open spec fn standard_template_names() -> Set<Seq<char>> {
    Set::empty().insert("verify_ok_template"@).insert("verify_err_template"@).insert(
        "sync_ok_template"@,
    ).insert("sync_err_template"@).insert("tape_backup_ok_template"@).insert(
        "tape_backup_err_template"@,
    ).insert("package_update_template"@).insert("certificate_renewal_err_template"@)
}

/// The compiled mail-template registry of the server.
pub struct TemplateRegistry {
    hb: handlebars::Handlebars<'static>,
}

impl TemplateRegistry {
    pub closed spec fn templates(&self) -> Set<Seq<char>> {
        registry_templates(self.hb)
    }

    /// Compile and register the server's job-report templates, in strict
    /// mode and without HTML escaping.
    pub fn new() -> (r: Result<TemplateRegistry, NotifyError>)
        ensures
            r is Ok <==> (template_compiles(VERIFY_OK_TEMPLATE@) && template_compiles(
                VERIFY_ERR_TEMPLATE@,
            ) && template_compiles(SYNC_OK_TEMPLATE@) && template_compiles(SYNC_ERR_TEMPLATE@)
                && template_compiles(TAPE_BACKUP_OK_TEMPLATE@) && template_compiles(
                TAPE_BACKUP_ERR_TEMPLATE@,
            ) && template_compiles(PACKAGE_UPDATES_TEMPLATE@) && template_compiles(
                ACME_CERTIFICATE_ERR_RENEWAL@,
            )),
            r matches Ok(t) ==> t.templates() == standard_template_names(),
            r is Err ==> r->Err_0 == NotifyError::TemplateSyntax,
    {
        let mut hb = registry_new();
        registry_set_strict_mode(&mut hb, true);
        registry_disable_escaping(&mut hb);
        if registry_register(&mut hb, "verify_ok_template", VERIFY_OK_TEMPLATE).is_err() {
            return Err(NotifyError::TemplateSyntax);
        }
        if registry_register(&mut hb, "verify_err_template", VERIFY_ERR_TEMPLATE).is_err() {
            return Err(NotifyError::TemplateSyntax);
        }
        if registry_register(&mut hb, "sync_ok_template", SYNC_OK_TEMPLATE).is_err() {
            return Err(NotifyError::TemplateSyntax);
        }
        if registry_register(&mut hb, "sync_err_template", SYNC_ERR_TEMPLATE).is_err() {
            return Err(NotifyError::TemplateSyntax);
        }
        if registry_register(&mut hb, "tape_backup_ok_template", TAPE_BACKUP_OK_TEMPLATE).is_err()
             {
            return Err(NotifyError::TemplateSyntax);
        }
        if registry_register(&mut hb, "tape_backup_err_template", TAPE_BACKUP_ERR_TEMPLATE).is_err()
             {
            return Err(NotifyError::TemplateSyntax);
        }
        if registry_register(&mut hb, "package_update_template", PACKAGE_UPDATES_TEMPLATE).is_err()
             {
            return Err(NotifyError::TemplateSyntax);
        }
        if registry_register(
            &mut hb,
            "certificate_renewal_err_template",
            ACME_CERTIFICATE_ERR_RENEWAL,
        ).is_err() {
            return Err(NotifyError::TemplateSyntax);
        }
        let t = TemplateRegistry { hb };
        proof {
            assert(t.templates() =~= standard_template_names());
        }
        Ok(t)
    }

    /// Whether a template of that name is registered.
    pub fn has_template(&self, name: &str) -> (r: bool)
        ensures
            r == self.templates().contains(name@),
    {
        registry_has(&self.hb, name)
    }
}

/// A mail ready for the transport: recipient, subject and body.
pub struct JobStatusMail {
    pub to: String,
    pub subject: String,
    pub text: String,
}

/// Subject of a manual media-change request.
pub open spec fn load_media_subject(
    changer: bool,
    device: Seq<char>,
    label_text: Seq<char>,
) -> Seq<char> {
    "Load Media '"@ + label_text + "' request for "@ + (if changer {
        "changer"@
    } else {
        "drive"@
    }) + " '"@ + device + "'"@
}

/// Body of a manual media-change request.
pub open spec fn load_media_text(
    changer: bool,
    device: Seq<char>,
    label_text: Seq<char>,
    reason: Option<Seq<char>>,
) -> Seq<char> {
    (match reason {
        Some(r) => "The "@ + (if changer {
            "changer"@
        } else {
            "drive"@
        }) + " has the wrong or no tape(s) inserted. Error:\n"@ + r + "\n\n"@,
        None => Seq::empty(),
    }) + (if changer {
        "Please insert the requested media into the changer.\n\nChanger: "@ + device + "\n"@
    } else {
        "Please insert the requested media into the backup drive.\n\nDrive: "@ + device + "\n"@
    }) + "Media: "@ + label_text + "\n"@
}

/// Compose the mail requesting a manual media change; the caller hands
/// it to the mail transport.
pub fn send_load_media_email(
    changer: bool,
    device: &str,
    label_text: &str,
    to: &str,
    reason: Option<String>,
) -> (r: JobStatusMail)
    ensures
        r.to@ == to@,
        r.subject@ == load_media_subject(changer, device@, label_text@),
        r.text@ == load_media_text(
            changer,
            device@,
            label_text@,
            match reason {
                Some(s) => Some(s@),
                None => None,
            },
        ),
{
    let mut subject: Vec<char> = Vec::new();
    push_chars(&mut subject, "Load Media '");
    push_chars(&mut subject, label_text);
    push_chars(&mut subject, "' request for ");
    if changer {
        push_chars(&mut subject, "changer");
    } else {
        push_chars(&mut subject, "drive");
    }
    push_chars(&mut subject, " '");
    push_chars(&mut subject, device);
    push_chars(&mut subject, "'");
    let mut text: Vec<char> = Vec::new();
    match &reason {
        Some(r) => {
            push_chars(&mut text, "The ");
            if changer {
                push_chars(&mut text, "changer");
            } else {
                push_chars(&mut text, "drive");
            }
            push_chars(&mut text, " has the wrong or no tape(s) inserted. Error:\n");
            push_chars(&mut text, r.as_str());
            push_chars(&mut text, "\n\n");
        },
        None => (),
    }
    if changer {
        push_chars(&mut text, "Please insert the requested media into the changer.\n\nChanger: ");
    } else {
        push_chars(
            &mut text,
            "Please insert the requested media into the backup drive.\n\nDrive: ",
        );
    }
    push_chars(&mut text, device);
    push_chars(&mut text, "\n");
    push_chars(&mut text, "Media: ");
    push_chars(&mut text, label_text);
    push_chars(&mut text, "\n");
    proof {
        assert(subject@ =~= load_media_subject(changer, device@, label_text@));
        assert(text@ =~= load_media_text(
            changer,
            device@,
            label_text@,
            match reason {
                Some(s) => Some(s@),
                None => None,
            },
        ));
    }
    let to_string = crate::strutil::str_to_chars(to);
    JobStatusMail {
        to: chars_to_string(&to_string),
        subject: chars_to_string(&subject),
        text: chars_to_string(&text),
    }
}

/// Summary of a successful tape job.
#[derive(Default)]
pub struct TapeBackupJobSummary {
    /// The list of snapshots backed up.
    pub snapshot_list: Vec<String>,
    /// The total time of the backup job.
    pub duration: std::time::Duration,
    /// The labels of the used tapes of the backup job.
    pub used_tapes: Option<Vec<String>>,
}

} // verus!

use ffwebapps::desktop::kwin_rule_update;
use ffwebapps::kwin::kwin_rules;
use ffwebapps::site::{Site, SiteConfig, SiteManifest};

const APP_ID: &str = "ffwebapps-01HZX.webapp-42";

fn rule_block(name: &str) -> String {
    format!(
        "[ffwebapps-FFPWA-01HZX]\nDescription=ffwebapps: remember window position for {name}\npositionrule=4\nwmclass={APP_ID}\nwmclassmatch=1\ntypes=1\n"
    )
}

fn kwin_site(webapp_id: Option<&str>) -> Site {
    Site {
        ulid: "01HZX".to_string(),
        config: SiteConfig {
            name: None,
            manifest_url: "https://example.com/app.webmanifest".to_string(),
            document_url: "https://example.com/".to_string(),
            webapp_id: webapp_id.map(|s| s.to_string()),
            external_links: None,
            allowed_domains: vec![],
            software_rendering: false,
            hardware_webrtc: false,
            user_agent: None,
            launch_on_login: false,
            start_hidden: false,
            enabled_protocol_handlers: vec![],
        },
        manifest: SiteManifest { name: None, short_name: None, scope: None, shortcuts: vec![] },
        name: "Example".to_string(),
        description: String::new(),
        domain: "example.com".to_string(),
        url: "https://example.com/".to_string(),
        categories: vec![],
        keywords: vec![],
    }
}

#[test]
fn install_into_empty_file_adds_general_and_rule() {
    let out = kwin_rules("", "FFPWA-01HZX", true, "Teams", APP_ID);
    let expected = format!("[General]\ncount=1\nrules=ffwebapps-FFPWA-01HZX\n{}", rule_block("Teams"));
    assert_eq!(out, expected);
}

#[test]
fn install_keeps_user_rules_and_lists_both() {
    let content = "[General]\ncount=1\nrules=user1\n[user1]\nDescription=mine\nwmclass=foo\n";
    let out = kwin_rules(content, "FFPWA-01HZX", true, "Teams", APP_ID);
    let expected = format!(
        "[General]\ncount=2\nrules=user1,ffwebapps-FFPWA-01HZX\n[user1]\nDescription=mine\nwmclass=foo\n{}",
        rule_block("Teams")
    );
    assert_eq!(out, expected);
}

#[test]
fn installing_twice_is_installing_once() {
    let content = "# top comment\n[General]\ncount=1\nrules=user1\nother=x\n[user1]\nk=v\n";
    let once = kwin_rules(content, "FFPWA-01HZX", true, "Teams", APP_ID);
    let twice = kwin_rules(&once, "FFPWA-01HZX", true, "Teams", APP_ID);
    assert_eq!(once, twice);
    assert_eq!(once.matches("[ffwebapps-FFPWA-01HZX]").count(), 1);
}

#[test]
fn renaming_replaces_the_rule() {
    let first = kwin_rules("", "FFPWA-01HZX", true, "Old", APP_ID);
    let second = kwin_rules(&first, "FFPWA-01HZX", true, "New", APP_ID);
    assert_eq!(second, kwin_rules("", "FFPWA-01HZX", true, "New", APP_ID));
}

#[test]
fn removing_after_installing_drops_rule_and_list_entry() {
    let content = "[General]\ncount=1\nrules=user1\n[user1]\nk=v\n";
    let installed = kwin_rules(content, "FFPWA-01HZX", true, "Teams", APP_ID);
    let removed = kwin_rules(&installed, "FFPWA-01HZX", false, "Teams", APP_ID);
    assert_eq!(removed, "[General]\ncount=1\nrules=user1\n[user1]\nk=v\n");
    assert_eq!(removed, kwin_rules(content, "FFPWA-01HZX", false, "Teams", APP_ID));
}

#[test]
fn removing_from_empty_file_writes_empty_list() {
    assert_eq!(kwin_rules("", "FFPWA-01HZX", false, "Teams", APP_ID), "[General]\ncount=0\nrules=\n");
}

#[test]
fn list_lines_move_to_the_top_of_general() {
    let content = "[General]\nfoo=1\nrules=a,,b\ncount=9\nbar=2\n";
    let out = kwin_rules(content, "FFPWA-01HZX", false, "Teams", APP_ID);
    assert_eq!(out, "[General]\ncount=2\nrules=a,b\nfoo=1\nbar=2\n");
}

#[test]
fn lines_before_first_header_are_kept() {
    let out = kwin_rules("a=1\n\nb=2", "FFPWA-01HZX", false, "Teams", APP_ID);
    assert_eq!(out, "a=1\n\nb=2\n[General]\ncount=0\nrules=\n");
}

#[test]
fn rule_update_needs_a_webapp_id() {
    let site = kwin_site(None);
    assert_eq!(kwin_rule_update("", &site, "FFPWA-01HZX", true, "Teams"), None);
    let site = kwin_site(Some("42"));
    let out = kwin_rule_update("", &site, "FFPWA-01HZX", true, "Teams").unwrap();
    assert!(out.contains(&format!("wmclass={APP_ID}\n")));
    assert_eq!(out, kwin_rules("", "FFPWA-01HZX", true, "Teams", APP_ID));
}

#[test]
fn crlf_file_is_read_line_by_line() {
    let content = "[General]\r\ncount=1\r\nrules=user1\r\n[user1]\r\nk=v\r\n";
    let once = kwin_rules(content, "FFPWA-01HZX", true, "Teams", APP_ID);
    assert_eq!(
        once,
        format!("[General]\ncount=2\nrules=user1,ffwebapps-FFPWA-01HZX\n[user1]\nk=v\n{}", rule_block("Teams"))
    );
    assert_eq!(kwin_rules(&once, "FFPWA-01HZX", true, "Teams", APP_ID), once);
}

#[test]
fn carriage_return_inside_a_line_is_kept() {
    let content = "[General]\ncount=1\nrules=user1\n[user1]\nk=a\rb\n";
    let once = kwin_rules(content, "FFPWA-01HZX", true, "Teams", APP_ID);
    assert!(once.contains("\nk=a\rb\n"));
    assert_eq!(kwin_rules(&once, "FFPWA-01HZX", true, "Teams", APP_ID), once);
    let removed = kwin_rules(&once, "FFPWA-01HZX", false, "Teams", APP_ID);
    assert_eq!(removed, kwin_rules(content, "FFPWA-01HZX", false, "Teams", APP_ID));
}

#[test]
fn line_final_carriage_return_is_read_away() {
    let content = "[General]\nk=v\r\r\n";
    let once = kwin_rules(content, "FFPWA-01HZX", false, "Teams", APP_ID);
    assert_eq!(once, "[General]\ncount=0\nrules=\nk=v\r\n");
    let twice = kwin_rules(&once, "FFPWA-01HZX", false, "Teams", APP_ID);
    assert_eq!(twice, "[General]\ncount=0\nrules=\nk=v\n");
}

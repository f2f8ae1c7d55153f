use ffwebapps::desktop::{
    autostart_entry, desktop_entry, is_kde_desktop, launcher_command, taskbar_tab_app_id, DesktopError, SiteIds,
};
use ffwebapps::site::{Shortcut, Site, SiteConfig, SiteManifest};

fn desk_site(webapp_id: Option<&str>, shortcuts: Vec<Shortcut>) -> Site {
    Site {
        ulid: "01HZXAB".to_string(),
        config: SiteConfig {
            name: None,
            manifest_url: "https://mail.example.com/app.webmanifest".to_string(),
            document_url: "https://mail.example.com/".to_string(),
            webapp_id: webapp_id.map(|s| s.to_string()),
            external_links: None,
            allowed_domains: vec![],
            software_rendering: false,
            hardware_webrtc: false,
            user_agent: None,
            launch_on_login: false,
            start_hidden: false,
            enabled_protocol_handlers: vec!["mailto".to_string(), "web+mail".to_string()],
        },
        manifest: SiteManifest { name: Some("Mail".to_string()), short_name: None, scope: None, shortcuts },
        name: "Mail".to_string(),
        description: "Read mail".to_string(),
        domain: "mail.example.com".to_string(),
        url: "https://mail.example.com/".to_string(),
        categories: vec![],
        keywords: vec!["mail".to_string(), "inbox".to_string()],
    }
}

#[test]
fn ids_of_a_site() {
    let ids = SiteIds::create_for(&desk_site(None, vec![]));
    assert_eq!(ids.name, "Mail");
    assert_eq!(ids.description, "Read mail");
    assert_eq!(ids.ulid, "01HZXAB");
    assert_eq!(ids.classid, "FFPWA-01HZXAB");
}

#[test]
fn app_id_of_a_window() {
    assert_eq!(taskbar_tab_app_id(&desk_site(None, vec![]), "7"), "ffwebapps-01HZXAB.webapp-7");
}

#[test]
fn launcher_text_with_shortcut() {
    let sc = vec![Shortcut { name: "Compose".to_string(), url: Some("https://mail.example.com/new".to_string()) }];
    let site = desk_site(Some("7"), sc);
    let ids = SiteIds::create_for(&site);
    let cats = vec!["Office".to_string(), "Email".to_string(), "Office".to_string()];
    let text = desktop_entry(&site, &ids, "/usr/bin/ffwebapps", cats).ok().unwrap();
    let expected = "[Desktop Entry]\nType=Application\nVersion=1.4\nName=Mail\nComment=Read mail\n\
Keywords=mail;inbox;\nCategories=GTK;Email;Office;\nIcon=FFPWA-01HZXAB\n\
Exec=/usr/bin/ffwebapps site launch 01HZXAB --protocol %u\nActions=0;\n\
MimeType=x-scheme-handler/mailto;x-scheme-handler/web+mail;\nTerminal=false\nStartupNotify=true\n\
StartupWMClass=ffwebapps-01HZXAB.webapp-7\n\
\n[Desktop Action 0]\nName=Compose\nIcon=FFPWA-01HZXAB-0\n\
Exec=/usr/bin/ffwebapps site launch 01HZXAB --url \"https://mail.example.com/new\"\n";
    assert_eq!(text, expected);
}

#[test]
fn launcher_without_webapp_id_uses_class_id() {
    let site = desk_site(None, vec![]);
    let ids = SiteIds::create_for(&site);
    let text = desktop_entry(&site, &ids, "ffwebapps", vec![]).ok().unwrap();
    assert!(text.contains("\nCategories=GTK;;\n"));
    assert!(text.contains("\nActions=\n"));
    assert!(text.ends_with("StartupWMClass=FFPWA-01HZXAB\n"));
}

#[test]
fn relative_shortcut_url_is_refused() {
    let sc = vec![
        Shortcut { name: "A".to_string(), url: Some("https://a/".to_string()) },
        Shortcut { name: "B".to_string(), url: None },
    ];
    let site = desk_site(None, sc);
    let ids = SiteIds::create_for(&site);
    assert!(matches!(desktop_entry(&site, &ids, "ffwebapps", vec![]), Err(DesktopError::RelativeShortcutUrl)));
}

#[test]
fn autostart_follows_launch_on_login_and_hidden() {
    let entry = "Exec=ffwebapps site launch 01HZXAB --protocol %u\nExec=ffwebapps site launch 01HZXAB --url \"x\"\n";
    let mut site = desk_site(None, vec![]);
    assert_eq!(autostart_entry(entry, &site), None);
    site.config.launch_on_login = true;
    assert_eq!(autostart_entry(entry, &site).as_deref(), Some(entry));
    site.config.start_hidden = true;
    assert_eq!(
        autostart_entry(entry, &site).as_deref(),
        Some("Exec=ffwebapps site launch 01HZXAB --hidden --protocol %u\nExec=ffwebapps site launch 01HZXAB --hidden --url \"x\"\n")
    );
}

#[test]
fn launcher_command_layouts() {
    assert_eq!(launcher_command("/usr/bin/ffwebapps", "/u", "/s", true), "/usr/bin/ffwebapps");
    assert_eq!(
        launcher_command("/home/me/.local/bin/ffwebapps", "/home/me/.local/share/ffwebapps", "/usr/share", false),
        "env FFPWA_USERDATA=/home/me/.local/share/ffwebapps FFPWA_SYSDATA=/usr/share /home/me/.local/bin/ffwebapps"
    );
}

#[test]
fn kde_detection() {
    assert!(is_kde_desktop("KDE"));
    assert!(is_kde_desktop("ubuntu:kde"));
    assert!(is_kde_desktop("X-Generic:KdE:foo"));
    assert!(!is_kde_desktop("GNOME"));
    assert!(!is_kde_desktop(""));
    assert!(!is_kde_desktop("KDE5"));
}

#[test]
fn launcher_and_kwin_rule_claim_the_same_window() {
    let site = desk_site(Some("99"), vec![]);
    let ids = SiteIds::create_for(&site);
    let entry = desktop_entry(&site, &ids, "ffwebapps", vec![]).ok().unwrap();
    let rules = ffwebapps::desktop::kwin_rule_update("", &site, &ids.classid, true, "Mail").unwrap();
    let wm = entry.lines().find_map(|l| l.strip_prefix("StartupWMClass=")).unwrap();
    let rule_wm = rules.lines().find_map(|l| l.strip_prefix("wmclass=")).unwrap();
    assert_eq!(wm, rule_wm);
    assert_eq!(wm, "ffwebapps-01HZXAB.webapp-99");
}

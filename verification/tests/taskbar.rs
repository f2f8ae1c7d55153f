use ffwebapps::site::{Site, SiteConfig, SiteManifest};
use ffwebapps::taskbar::{
    default_allowed_domains, profile_prefs, scope_from_site, taskbar_tab_for, updated_registry, upsert_tab,
    Registry, Scope, TaskbarError, TaskbarTab,
};

fn tab_site(domain: &str, webapp_id: Option<&str>, scope: Option<&str>) -> Site {
    Site {
        ulid: "01HZX".to_string(),
        config: SiteConfig {
            name: None,
            manifest_url: format!("https://{domain}/app.webmanifest"),
            document_url: format!("https://{domain}/"),
            webapp_id: webapp_id.map(|s| s.to_string()),
            external_links: None,
            allowed_domains: vec![],
            software_rendering: false,
            hardware_webrtc: false,
            user_agent: None,
            launch_on_login: false,
            start_hidden: false,
            enabled_protocol_handlers: vec![],
        },
        manifest: SiteManifest {
            name: Some("App".to_string()),
            short_name: None,
            scope: scope.map(|s| s.to_string()),
            shortcuts: vec![],
        },
        name: "App".to_string(),
        description: String::new(),
        domain: domain.to_string(),
        url: format!("https://{domain}/start"),
        categories: vec![],
        keywords: vec![],
    }
}

fn plain_tab(id: &str, name: &str) -> TaskbarTab {
    TaskbarTab {
        id: id.to_string(),
        scopes: vec![Scope { hostname: "h".to_string(), prefix: None }],
        user_context_id: 0,
        start_url: "https://h/".to_string(),
        name: Some(name.to_string()),
    }
}

#[test]
fn scope_takes_path_prefix_from_manifest_scope() {
    let s = scope_from_site(&tab_site("teams.microsoft.com", None, Some("https://teams.microsoft.com/v2/")));
    assert_eq!(s.hostname, "teams.microsoft.com");
    assert_eq!(s.prefix.as_deref(), Some("/v2/"));
}

#[test]
fn scope_without_path_has_no_prefix() {
    let s = scope_from_site(&tab_site("example.org", None, Some("https://example.org")));
    assert_eq!(s.prefix, None);
    let s = scope_from_site(&tab_site("example.org", None, Some("https://example.org/")));
    assert_eq!(s.prefix, None);
    let s = scope_from_site(&tab_site("example.org", None, None));
    assert_eq!(s.prefix, None);
    let s = scope_from_site(&tab_site("example.org", None, Some("not a url")));
    assert_eq!(s.prefix, None);
}

#[test]
fn entry_needs_webapp_id() {
    assert!(matches!(taskbar_tab_for(&tab_site("example.org", None, None)), Err(TaskbarError::MissingWebappId)));
    let t = taskbar_tab_for(&tab_site("example.org", Some("abc"), None)).ok().unwrap();
    assert_eq!(t.id, "abc");
    assert_eq!(t.user_context_id, 0);
    assert_eq!(t.start_url, "https://example.org/start");
    assert_eq!(t.name.as_deref(), Some("App"));
    assert_eq!(t.scopes.len(), 1);
    assert_eq!(t.scopes[0].hostname, "example.org");
}

#[test]
fn registry_default_is_empty_version_one() {
    let r = Registry::default();
    assert_eq!(r.version, 1);
    assert!(r.taskbar_tabs.is_empty());
}

#[test]
fn upsert_replaces_same_id_and_appends_new() {
    let mut r = Registry { version: 1, taskbar_tabs: vec![plain_tab("a", "A"), plain_tab("b", "B")] };
    upsert_tab(&mut r, plain_tab("b", "B2"));
    assert_eq!(r.taskbar_tabs.len(), 2);
    assert_eq!(r.taskbar_tabs[1].name.as_deref(), Some("B2"));
    assert_eq!(r.taskbar_tabs[0].name.as_deref(), Some("A"));
    upsert_tab(&mut r, plain_tab("c", "C"));
    assert_eq!(r.taskbar_tabs.len(), 3);
    assert_eq!(r.taskbar_tabs[2].id, "c");
}

#[test]
fn writing_an_entry_twice_is_writing_it_once() {
    let site = tab_site("example.org", Some("abc"), None);
    let base = Registry { version: 1, taskbar_tabs: vec![plain_tab("x", "X")] };
    let once = updated_registry(base, &site).ok().unwrap();
    let twice = updated_registry(once, &site).ok().unwrap();
    assert_eq!(twice.taskbar_tabs.len(), 2);
    assert_eq!(twice.taskbar_tabs[0].id, "x");
    assert_eq!(twice.taskbar_tabs[1].id, "abc");
}

#[test]
fn registry_update_fails_without_id() {
    let site = tab_site("example.org", None, None);
    let r = updated_registry(Registry::default(), &site);
    assert!(matches!(r, Err(TaskbarError::MissingWebappId)));
}

#[test]
fn default_domains_for_microsoft_app() {
    let got = default_allowed_domains(&tab_site("teams.microsoft.com", None, None));
    let expected = [
        "*.auth0.com", "*.azureedge.net", "*.b2clogin.com", "*.cloud.microsoft", "*.duosecurity.com",
        "*.microsoft.com", "*.microsoftonline-p.com", "*.microsoftonline.com", "*.msauth.net",
        "*.msftauth.net", "*.office.com", "*.office.net", "*.okta.com", "*.onelogin.com",
        "*.sharepoint.com", "*.sharepointonline.com", "*.skype.com", "*.teams.microsoft.com",
        "accounts.google.com", "login.live.com", "login.microsoft.com", "login.microsoftonline.com",
        "login.windows.net", "microsoft.com", "teams.microsoft.com",
    ];
    assert_eq!(got, expected.iter().map(|s| s.to_string()).collect::<Vec<_>>());
}

#[test]
fn default_domains_for_plain_app() {
    let got = default_allowed_domains(&tab_site("example.org", None, None));
    let expected = [
        "*.auth0.com", "*.b2clogin.com", "*.duosecurity.com", "*.msauth.net", "*.msftauth.net",
        "*.okta.com", "*.onelogin.com", "accounts.google.com", "example.org", "login.live.com",
        "login.microsoft.com", "login.microsoftonline.com", "login.windows.net",
    ];
    assert_eq!(got, expected.iter().map(|s| s.to_string()).collect::<Vec<_>>());
    let got = default_allowed_domains(&tab_site("mail.google.com", None, None));
    assert!(got.contains(&"*.google.com".to_string()));
    assert!(got.contains(&"google.com".to_string()));
    assert!(got.contains(&"mail.google.com".to_string()));
    assert_eq!(got.len(), 15);
}

#[test]
fn prefs_with_own_domains_and_user_agent() {
    let mut site = tab_site("example.org", None, None);
    site.config.allowed_domains = vec!["a.com".to_string(), "b.com".to_string()];
    site.config.hardware_webrtc = true;
    site.config.user_agent = Some("Mozilla \"X\" \\ Y".to_string());
    let expected = "// Managed by ffwebapps — do not edit.\n\
user_pref(\"ffwebapps.externalLinks.enabled\", true);\n\
user_pref(\"ffwebapps.allowedDomains\", \"a.com,b.com\");\n\
user_pref(\"media.hardware-video-decoding.force-enabled\", true);\n\
user_pref(\"media.navigator.mediadatadecoder_vp8_hardware_enabled\", true);\n\
user_pref(\"general.useragent.override\", \"Mozilla \\\"X\\\" \\\\ Y\");\n";
    assert_eq!(profile_prefs(&site), expected);
}

#[test]
fn prefs_software_rendering_wins_and_links_off() {
    let mut site = tab_site("example.org", None, None);
    site.config.allowed_domains = vec!["a.com".to_string()];
    site.config.external_links = Some(false);
    site.config.software_rendering = true;
    site.config.hardware_webrtc = true;
    site.config.user_agent = Some(String::new());
    let out = profile_prefs(&site);
    assert!(out.starts_with("// Managed by ffwebapps — do not edit.\nuser_pref(\"ffwebapps.externalLinks.enabled\", false);\nuser_pref(\"ffwebapps.allowedDomains\", \"a.com\");\nuser_pref(\"gfx.webrender.software\", true);\n"));
    assert!(out.ends_with("user_pref(\"media.navigator.mediadatadecoder_h264_hardware_enabled\", false);\n"));
    assert!(!out.contains("force-enabled\", true"));
    assert!(!out.contains("useragent"));
}

#[test]
fn prefs_default_domain_list() {
    let site = tab_site("example.org", None, None);
    let out = profile_prefs(&site);
    let list = default_allowed_domains(&site).join(",");
    assert!(out.contains(&format!("user_pref(\"ffwebapps.allowedDomains\", \"{list}\");\n")));
}

use ffwebapps::forms::{external_links_value, opt_opt_string, parse_csv, vec_opt_update, vec_plain_update};

#[test]
fn parse_csv_trims_and_drops_empty_items() {
    assert_eq!(parse_csv(" a, b ,,c ,  "), vec!["a".to_string(), "b".to_string(), "c".to_string()]);
    assert!(parse_csv("").is_empty());
}

#[test]
fn opt_opt_string_diffs_overrides() {
    assert_eq!(opt_opt_string(None, "  "), None);
    assert_eq!(opt_opt_string(Some("Teams"), " Teams "), None);
    assert_eq!(opt_opt_string(Some("Teams"), ""), Some(None));
    assert_eq!(opt_opt_string(None, " Mail "), Some(Some("Mail".to_string())));
}

#[test]
fn external_links_value_keeps_default_unset() {
    assert_eq!(external_links_value(None, true), None);
    assert_eq!(external_links_value(None, false), Some(false));
    assert_eq!(external_links_value(Some(false), true), Some(true));
}

#[test]
fn vec_updates_follow_library_semantics() {
    let orig = Some(vec!["a".to_string(), "b".to_string()]);
    assert_eq!(vec_opt_update(&orig, "a, b"), None);
    assert_eq!(vec_opt_update(&orig, ""), Some(vec![String::new()]));
    assert_eq!(vec_opt_update(&None, "x"), Some(vec!["x".to_string()]));
    assert_eq!(vec_plain_update(&["a".to_string()], "a"), None);
    assert_eq!(vec_plain_update(&["a".to_string()], ""), Some(vec![]));
}

use ffwebapps::forms::{
    app_count_label, install_urls, parse_opt_opt_url, profile_subtitle, runtime_status, site_display_name,
    site_domain, text_to_arguments, text_to_variables, variables_to_text, InstallError, InstallParams,
};
use ffwebapps::site::{Site, SiteConfig, SiteManifest};

fn form_site(manifest_url: &str, document_url: &str, names: [Option<&str>; 3]) -> Site {
    Site {
        ulid: "01HZX".to_string(),
        config: SiteConfig {
            name: names[0].map(|s| s.to_string()),
            manifest_url: manifest_url.to_string(),
            document_url: document_url.to_string(),
            webapp_id: None,
            external_links: None,
            allowed_domains: vec![],
            software_rendering: false,
            hardware_webrtc: false,
            user_agent: None,
            launch_on_login: false,
            start_hidden: false,
            enabled_protocol_handlers: vec![],
        },
        manifest: SiteManifest {
            name: names[1].map(|s| s.to_string()),
            short_name: names[2].map(|s| s.to_string()),
            scope: None,
            shortcuts: vec![],
        },
        name: String::new(),
        description: String::new(),
        domain: String::new(),
        url: String::new(),
        categories: vec![],
        keywords: vec![],
    }
}

fn install_form(manifest: &str, document: Option<&str>) -> InstallParams {
    InstallParams {
        manifest_url: manifest.to_string(),
        document_url: document.map(|s| s.to_string()),
        profile: None,
        name: None,
        launch_on_login: false,
        launch_on_browser: false,
        hardware_webrtc: false,
        software_rendering: false,
    }
}

#[test]
fn domain_from_manifest_or_document_url() {
    let s = form_site("https://App.Example.com/m.json", "https://other.org/", [None, None, None]);
    assert_eq!(site_domain(&s), "app.example.com");
    let s = form_site("data:application/app.webmanifest,{}", "https://doc.example.net/x", [None, None, None]);
    assert_eq!(site_domain(&s), "doc.example.net");
    let s = form_site("data:application/app.webmanifest,{}", "not a url", [None, None, None]);
    assert_eq!(site_domain(&s), "");
}

#[test]
fn display_name_preference_order() {
    let url = "https://app.example.com/m.json";
    assert_eq!(site_display_name(&form_site(url, url, [Some(" Mine "), Some("Man"), Some("S")])), "Mine");
    assert_eq!(site_display_name(&form_site(url, url, [Some("  "), Some("Man"), Some("S")])), "Man");
    assert_eq!(site_display_name(&form_site(url, url, [None, Some(""), Some(" S ")])), "S");
    assert_eq!(site_display_name(&form_site(url, url, [None, None, Some(" ")])), "app.example.com");
}

#[test]
fn url_updates_are_parsed() {
    assert!(matches!(parse_opt_opt_url(None, "start"), Ok(None)));
    assert!(matches!(parse_opt_opt_url(Some(None), "start"), Ok(Some(None))));
    let ok = parse_opt_opt_url(Some(Some(" https://example.com ".to_string())), "start");
    assert_eq!(ok.ok().unwrap(), Some(Some("https://example.com/".to_string())));
    match parse_opt_opt_url(Some(Some("nope".to_string())), "icon") {
        Err(e) => {
            assert_eq!(e.field, "icon");
            assert_eq!(e.text, "nope");
            assert_eq!(e.message(), "Invalid icon URL: nope");
        }
        Ok(_) => panic!("accepted an invalid URL"),
    }
}

#[test]
fn install_form_urls() {
    let (m, d) = install_urls(&install_form(" https://a.example/m.json ", None)).ok().unwrap();
    assert_eq!(m, "https://a.example/m.json");
    assert_eq!(d, None);
    let (_, d) = install_urls(&install_form("https://a.example/m.json", Some("  "))).ok().unwrap();
    assert_eq!(d, None);
    let (_, d) = install_urls(&install_form("https://a.example/m.json", Some(" HTTPS://A.example "))).ok().unwrap();
    assert_eq!(d.as_deref(), Some("https://a.example/"));
    assert!(matches!(install_urls(&install_form("bad", None)), Err(InstallError::InvalidManifestUrl)));
    assert!(matches!(
        install_urls(&install_form("https://a.example/m.json", Some("bad"))),
        Err(InstallError::InvalidDocumentUrl)
    ));
}

#[test]
fn labels() {
    assert_eq!(app_count_label(0), "No web apps");
    assert_eq!(app_count_label(1), "1 web app");
    assert_eq!(app_count_label(12), "12 web apps");
    assert_eq!(profile_subtitle(Some("Work"), 3), "Work · 3 apps");
    assert_eq!(profile_subtitle(Some(""), 3), "3 apps");
    assert_eq!(profile_subtitle(None, 0), "0 apps");
    assert_eq!(runtime_status(Some("128.0")), "Installed · version 128.0");
    assert_eq!(runtime_status(None), "Not installed");
}

#[test]
fn arguments_one_per_line() {
    assert_eq!(text_to_arguments(" --a \n\n  --b=1\r\n"), vec!["--a".to_string(), "--b=1".to_string()]);
    let args = vec!["--x".to_string(), "-y z".to_string()];
    assert_eq!(text_to_arguments(&args.join("\n")), args);
}

#[test]
fn variables_read_and_written() {
    let vars = text_to_variables(" B = 2 \nnoequals\n\nA=1=x\nB=3\n");
    assert_eq!(vars, vec![("A".to_string(), "1=x".to_string()), ("B".to_string(), "3".to_string())]);
    assert_eq!(variables_to_text(&vars), "A=1=x\nB=3");
    assert_eq!(text_to_variables(&variables_to_text(&vars)), vars);
    assert_eq!(variables_to_text(&vec![]), "");
}

#[test]
fn csv_round_trip_of_shown_list() {
    let items = vec!["Office".to_string(), "Email client".to_string()];
    assert_eq!(parse_csv(&items.join(", ")), items);
    assert_eq!(vec_opt_update(&Some(items.clone()), &items.join(", ")), None);
    assert_eq!(vec_plain_update(&items, &items.join(", ")), None);
    assert_eq!(opt_opt_string(Some("Mail"), "Mail"), None);
    assert_eq!(external_links_value(Some(false), false), Some(false));
    assert_eq!(external_links_value(Some(true), true), Some(true));
}

use ffwebapps::forms::{compose_sched, empty_config, profile_title, sched_policy};

#[test]
fn scheduling_setting_read_and_written() {
    assert_eq!(sched_policy(Some("nice: -5 ")), (1, Some("-5".to_string())));
    assert_eq!(sched_policy(Some("rr:10")), (2, Some("10".to_string())));
    assert_eq!(sched_policy(Some("fifo:")), (3, Some(String::new())));
    assert_eq!(sched_policy(Some("batch")), (4, None));
    assert_eq!(sched_policy(Some("idle")), (5, None));
    assert_eq!(sched_policy(Some("idle ")), (0, None));
    assert_eq!(sched_policy(None), (0, None));
    assert_eq!(compose_sched(1, -5), "nice:-5");
    assert_eq!(compose_sched(2, 10), "rr:10");
    assert_eq!(compose_sched(3, 0), "fifo:0");
    assert_eq!(compose_sched(4, 7), "batch");
    assert_eq!(compose_sched(5, 7), "idle");
    assert_eq!(compose_sched(0, 7), "");
    assert_eq!(compose_sched(9, 7), "");
    assert_eq!(compose_sched(1, i64::MIN), format!("nice:{}", i64::MIN));
}

#[test]
fn empty_settings_and_profile_titles() {
    let c = empty_config();
    assert!(!c.always_patch && !c.runtime_enable_wayland && !c.runtime_use_xinput2);
    assert!(!c.runtime_use_portals && !c.use_linked_runtime);
    assert!(c.arguments.is_empty() && c.variables.is_empty());
    assert_eq!(profile_title(Some("Work")), "Work");
    assert_eq!(profile_title(None), "Unnamed profile");
}

#[test]
fn default_profile_is_only_cleared() {
    let (h, b, button) = ffwebapps::forms::removal_prompt("Default", true);
    assert_eq!(h, "Clear “Default”?");
    assert_eq!(b, "Removes all web apps and data in the Default profile. The profile itself stays.");
    assert_eq!(button, "Clear");
    let (h, b, button) = ffwebapps::forms::removal_prompt("Work", false);
    assert_eq!(h, "Remove “Work”?");
    assert_eq!(b, "Permanently removes the profile and all of its web apps and data.");
    assert_eq!(button, "Remove");
}

#[test]
fn csv_items_are_clean_and_parse_back_with_bare_commas() {
    let r = parse_csv(" a ,, b c,\t,d ");
    assert_eq!(r, vec!["a".to_string(), "b c".to_string(), "d".to_string()]);
    for item in &r {
        assert!(!item.is_empty() && item.trim() == item && !item.contains(','));
    }
    assert_eq!(parse_csv(&r.join(",")), r);
    assert_eq!(parse_csv(&r.join(", ")), r);
}

#[test]
fn variables_with_empty_name_read_back() {
    let vars = vec![(String::new(), "x".to_string()), ("A".to_string(), String::new())];
    assert_eq!(text_to_variables(&variables_to_text(&vars)), vars);
}

#[test]
fn url_results_to_shown_values() {
    use_url_helpers();
}

fn use_url_helpers() {
    assert!(ffwebapps::forms::uses_manifest_url(&Some("https".to_string())));
    assert!(ffwebapps::forms::uses_manifest_url(&None));
    assert!(!ffwebapps::forms::uses_manifest_url(&Some("data".to_string())));
    assert_eq!(ffwebapps::forms::host_or_empty(Some(Some("a.b".to_string()))), "a.b");
    assert_eq!(ffwebapps::forms::host_or_empty(Some(None)), "");
    assert_eq!(ffwebapps::forms::host_or_empty(None), "");
    assert_eq!(ffwebapps::taskbar::scope_prefix(Some("/v2/".to_string())).as_deref(), Some("/v2/"));
    assert_eq!(ffwebapps::taskbar::scope_prefix(Some("/".to_string())), None);
    assert_eq!(ffwebapps::taskbar::scope_prefix(Some(String::new())), None);
    assert_eq!(ffwebapps::taskbar::scope_prefix(None), None);
    assert_eq!(ffwebapps::forms::opt("  x  ").as_deref(), Some("x"));
    assert_eq!(ffwebapps::forms::opt(" \t "), None);
}

#[test]
fn scheduling_round_trip_and_profile_form_labels() {
    for (index, priority) in [(1u32, -5i64), (2, 10), (3, 0), (4, 7), (5, 7), (0, 3)] {
        let composed = compose_sched(index, priority);
        let (i, text) = sched_policy(if composed.is_empty() { None } else { Some(composed.as_str()) });
        assert_eq!(i, index);
        if (1..=3).contains(&index) {
            assert_eq!(text.unwrap().parse::<i64>().unwrap(), priority);
        } else {
            assert_eq!(text, None);
        }
    }
    let (t, b) = ffwebapps::forms::profile_form_labels(true);
    assert_eq!((t.as_str(), b.as_str()), ("Edit profile", "Save"));
    let (t, b) = ffwebapps::forms::profile_form_labels(false);
    assert_eq!((t.as_str(), b.as_str()), ("New profile", "Create"));
}

//! Desktop integration on Linux: launcher ids, the `.desktop` entry, the
//! autostart entry, the launcher command, the KDE session test and the
//! per-app KWin rule.

use vstd::prelude::*;
use crate::kwin::{kwin_rules, kwin_rules_spec};
use crate::order::{sort_dedup, sorted_unique};
use crate::site::{Shortcut, Site};
use crate::text::{
    chars_of, dec, dec_chars, eq_ignore_ascii_case, eq_ignore_case, join, join_chars, push_all,
    push_str, replace_all, replace_all_in, seqs_of, split, split_chars, string_of, strs_of,
};

verus! {

/// The names and ids under which a web app is integrated.
pub struct SiteIds {
    pub name: String,
    pub description: String,
    pub ulid: String,
    pub classid: String,
}

/// The launcher class of a web app: `FFPWA-` and its ULID.
pub open spec fn classid_of(ulid: Seq<char>) -> Seq<char> {
    "FFPWA-"@ + ulid
}

impl SiteIds {
    /// The ids of `site`.
    pub fn create_for(site: &Site) -> (r: Self)
        ensures
            r.name@ == site.name@,
            r.description@ == site.description@,
            r.ulid@ == site.ulid@,
            r.classid@ == classid_of(site.ulid@),
    {
        let mut classid = chars_of("FFPWA-");
        push_str(&mut classid, site.ulid.as_str());
        SiteIds {
            name: string_of(&chars_of(site.name.as_str())),
            description: string_of(&chars_of(site.description.as_str())),
            ulid: string_of(&chars_of(site.ulid.as_str())),
            classid: string_of(&classid),
        }
    }
}

/// The Wayland `app_id` (X11 window class) of a web app's window:
/// `ffwebapps-<ulid>.webapp-<webapp id>`.
pub open spec fn app_id_spec(ulid: Seq<char>, webapp_id: Seq<char>) -> Seq<char> {
    "ffwebapps-"@ + ulid + ".webapp-"@ + webapp_id
}

/// The Wayland `app_id` of the window of `site` with Web Apps id
/// `webapp_id`.
pub fn taskbar_tab_app_id(site: &Site, webapp_id: &str) -> (r: String)
    ensures
        r@ == app_id_spec(site.ulid@, webapp_id@),
{
    let mut v = chars_of("ffwebapps-");
    push_str(&mut v, site.ulid.as_str());
    push_str(&mut v, ".webapp-");
    push_str(&mut v, webapp_id);
    string_of(&v)
}

/// The window class a launcher of `site` claims: the app id once the app
/// has a Web Apps id, its launcher class before.
pub open spec fn wmclass_spec(site: Site, classid: Seq<char>) -> Seq<char> {
    match site.config.webapp_id {
        Some(id) => app_id_spec(site.ulid@, id@),
        None => classid,
    }
}

/// `0;1;…;(n-1);`, the launcher's action list.
pub open spec fn actions_text(n: nat) -> Seq<char>
    decreases n,
{
    if n == 0 {
        Seq::<char>::empty()
    } else {
        actions_text((n - 1) as nat) + dec((n - 1) as nat) + seq![';']
    }
}

/// `x-scheme-handler/<p>;` for each protocol `p`.
pub open spec fn mime_text(ps: Seq<Seq<char>>) -> Seq<char>
    decreases ps.len(),
{
    if ps.len() == 0 {
        Seq::<char>::empty()
    } else {
        mime_text(ps.drop_last()) + "x-scheme-handler/"@ + ps.last() + seq![';']
    }
}

/// The `[Desktop Entry]` group.
pub open spec fn entry_head(
    site: Site,
    ids: SiteIds,
    exe: Seq<char>,
    categories: Seq<Seq<char>>,
) -> Seq<char> {
    "[Desktop Entry]\nType=Application\nVersion=1.4\nName="@ + ids.name@ + "\nComment="@
        + ids.description@ + "\nKeywords="@ + join(strs_of(site.keywords@), seq![';'])
        + ";\nCategories=GTK;"@ + join(sorted_unique(categories), seq![';']) + ";\nIcon="@
        + ids.classid@ + "\nExec="@ + exe + " site launch "@ + ids.ulid@ + " --protocol %u\nActions="@
        + actions_text(site.manifest.shortcuts.len() as nat) + "\nMimeType="@ + mime_text(
        strs_of(site.config.enabled_protocol_handlers@),
    ) + "\nTerminal=false\nStartupNotify=true\nStartupWMClass="@ + wmclass_spec(site, ids.classid@)
        + "\n"@
}

/// The `[Desktop Action i]` group of shortcut `i`.
pub open spec fn action_group(
    i: nat,
    name: Seq<char>,
    url: Seq<char>,
    ids: SiteIds,
    exe: Seq<char>,
) -> Seq<char> {
    "\n[Desktop Action "@ + dec(i) + "]\nName="@ + name + "\nIcon="@ + ids.classid@ + seq!['-'] + dec(
        i,
    ) + "\nExec="@ + exe + " site launch "@ + ids.ulid@ + " --url \""@ + url + "\"\n"@
}

/// The action groups of the shortcuts `sc`.
pub open spec fn action_groups(sc: Seq<Shortcut>, ids: SiteIds, exe: Seq<char>) -> Seq<char>
    decreases sc.len(),
{
    if sc.len() == 0 {
        Seq::<char>::empty()
    } else {
        action_groups(sc.drop_last(), ids, exe) + action_group(
            (sc.len() - 1) as nat,
            sc.last().name@,
            match sc.last().url {
                Some(u) => u@,
                None => Seq::<char>::empty(),
            },
            ids,
            exe,
        )
    }
}

/// Whether every shortcut has an absolute URL.
pub open spec fn shortcut_urls_absolute(sc: Seq<Shortcut>) -> bool {
    forall|i: int| 0 <= i < sc.len() ==> (#[trigger] sc[i]).url is Some
}

/// Why a launcher cannot be written.
pub enum DesktopError {
    /// A shortcut's URL is relative.
    RelativeShortcutUrl,
}

/// The `.desktop` launcher of `site`: name, comment, keywords, the XDG
/// `categories` (sorted, without duplicates), icon, the launch command
/// through `exe`, one action per shortcut, the enabled protocol handlers,
/// and the window class that groups the app's window under the launcher.
/// Fails when a shortcut's URL is relative.
pub fn desktop_entry(site: &Site, ids: &SiteIds, exe: &str, categories: Vec<String>) -> (r: Result<
    String,
    DesktopError,
>)
    ensures
        match r {
            Ok(text) => shortcut_urls_absolute(site.manifest.shortcuts@) && text@ == entry_head(
                *site,
                *ids,
                exe@,
                strs_of(categories@),
            ) + action_groups(site.manifest.shortcuts@, *ids, exe@),
            Err(e) => !shortcut_urls_absolute(site.manifest.shortcuts@) && e
                == DesktopError::RelativeShortcutUrl,
        },
{
    let ghost cats_in = strs_of(categories@);
    let cats = sort_dedup(categories);
    let mut semi: Vec<char> = Vec::new();
    semi.push(';');
    let mut out = chars_of("[Desktop Entry]\nType=Application\nVersion=1.4\nName=");
    push_str(&mut out, ids.name.as_str());
    push_str(&mut out, "\nComment=");
    push_str(&mut out, ids.description.as_str());
    push_str(&mut out, "\nKeywords=");
    let kw = strings_to_chars(&site.keywords);
    push_all(&mut out, &join_chars(&kw, &semi));
    push_str(&mut out, ";\nCategories=GTK;");
    let cv = strings_to_chars(&cats);
    push_all(&mut out, &join_chars(&cv, &semi));
    push_str(&mut out, ";\nIcon=");
    push_str(&mut out, ids.classid.as_str());
    push_str(&mut out, "\nExec=");
    push_str(&mut out, exe);
    push_str(&mut out, " site launch ");
    push_str(&mut out, ids.ulid.as_str());
    push_str(&mut out, " --protocol %u\nActions=");
    let n = site.manifest.shortcuts.len();
    let mut i: usize = 0;
    let ghost o1 = out@;
    assert(actions_text(0) =~= Seq::<char>::empty());
    while i < n
        invariant
            i <= n == site.manifest.shortcuts.len(),
            out@ == o1 + actions_text(i as nat),
        decreases n - i,
    {
        push_all(&mut out, &dec_chars(i as u64));
        out.push(';');
        i = i + 1;
        assert(out@ =~= o1 + actions_text(i as nat));
    }
    push_str(&mut out, "\nMimeType=");
    let ps = &site.config.enabled_protocol_handlers;
    let ghost pv = strs_of(ps@);
    let ghost o2 = out@;
    let mut j: usize = 0;
    assert(mime_text(pv.take(0)) =~= Seq::<char>::empty());
    while j < ps.len()
        invariant
            j <= ps.len(),
            pv == strs_of(ps@),
            out@ == o2 + mime_text(pv.take(j as int)),
        decreases ps.len() - j,
    {
        push_str(&mut out, "x-scheme-handler/");
        push_str(&mut out, ps[j].as_str());
        out.push(';');
        proof {
            assert(pv.take(j + 1).drop_last() =~= pv.take(j as int));
            assert(pv.take(j + 1).last() == ps@[j as int]@);
        }
        j = j + 1;
        assert(out@ =~= o2 + mime_text(pv.take(j as int)));
    }
    assert(pv.take(ps.len() as int) =~= pv);
    push_str(&mut out, "\nTerminal=false\nStartupNotify=true\nStartupWMClass=");
    match &site.config.webapp_id {
        Some(id) => push_str(&mut out, taskbar_tab_app_id(site, id.as_str()).as_str()),
        None => push_str(&mut out, ids.classid.as_str()),
    }
    push_str(&mut out, "\n");
    assert(out@ =~= entry_head(*site, *ids, exe@, cats_in));
    let ghost head = out@;
    let sc = &site.manifest.shortcuts;
    let mut k: usize = 0;
    assert(action_groups(sc@.take(0), *ids, exe@) =~= Seq::<char>::empty());
    while k < sc.len()
        invariant
            k <= sc.len(),
            sc@ == site.manifest.shortcuts@,
            forall|m: int| 0 <= m < k ==> (#[trigger] sc@[m]).url is Some,
            out@ == head + action_groups(sc@.take(k as int), *ids, exe@),
        decreases sc.len() - k,
    {
        match &sc[k].url {
            None => {
                assert(!shortcut_urls_absolute(sc@));
                return Err(DesktopError::RelativeShortcutUrl);
            },
            Some(url) => {
                let ghost o3 = out@;
                push_str(&mut out, "\n[Desktop Action ");
                push_all(&mut out, &dec_chars(k as u64));
                push_str(&mut out, "]\nName=");
                push_str(&mut out, sc[k].name.as_str());
                push_str(&mut out, "\nIcon=");
                push_str(&mut out, ids.classid.as_str());
                out.push('-');
                push_all(&mut out, &dec_chars(k as u64));
                push_str(&mut out, "\nExec=");
                push_str(&mut out, exe);
                push_str(&mut out, " site launch ");
                push_str(&mut out, ids.ulid.as_str());
                push_str(&mut out, " --url \"");
                push_str(&mut out, url.as_str());
                push_str(&mut out, "\"\n");
                assert(out@ =~= o3 + action_group(k as nat, sc@[k as int].name@, url@, *ids, exe@));
                proof {
                    assert(sc@.take(k + 1).drop_last() =~= sc@.take(k as int));
                    assert(sc@.take(k + 1).last() == sc@[k as int]);
                }
            },
        }
        k = k + 1;
    }
    assert(sc@.take(sc.len() as int) =~= sc@);
    Ok(string_of(&out))
}

/// The autostart entry of `site` made from its launcher text `entry`:
/// `None` when the app does not start at login (the autostart entry is to be
/// removed); otherwise the launcher text, with `--hidden` added to every
/// `site launch <ulid>` when the app starts hidden in the tray.
pub fn autostart_entry(entry: &str, site: &Site) -> (r: Option<String>)
    ensures
        match r {
            None => !site.config.launch_on_login,
            Some(text) => site.config.launch_on_login && text@ == (if site.config.start_hidden {
                replace_all(entry@, "site launch "@ + site.ulid@, "site launch "@ + site.ulid@ + " --hidden"@)
            } else {
                entry@
            }),
        },
{
    if !site.config.launch_on_login {
        return None;
    }
    let text = chars_of(entry);
    if site.config.start_hidden {
        let mut from = chars_of("site launch ");
        push_str(&mut from, site.ulid.as_str());
        let mut to = chars_of("site launch ");
        push_str(&mut to, site.ulid.as_str());
        push_str(&mut to, " --hidden");
        proof {
            reveal_strlit("site launch ");
        }
        let replaced = replace_all_in(&text, &from, &to);
        Some(string_of(&replaced))
    } else {
        Some(string_of(&text))
    }
}

/// The command a launcher runs: the plain binary for the system-wide
/// layout, else the binary run under `env` with the data directories set.
pub open spec fn launcher_command_spec(
    bin: Seq<char>,
    userdata: Seq<char>,
    sysdata: Seq<char>,
    system_layout: bool,
) -> Seq<char> {
    if system_layout {
        bin
    } else {
        "env FFPWA_USERDATA="@ + userdata + " FFPWA_SYSDATA="@ + sysdata + " "@ + bin
    }
}

/// The command a launcher runs for the binary `bin` (the shown path of the
/// `ffwebapps` binary); `system_layout` says whether the data and binary
/// directories are the system-wide ones.
pub fn launcher_command(bin: &str, userdata: &str, sysdata: &str, system_layout: bool) -> (r: String)
    ensures
        r@ == launcher_command_spec(bin@, userdata@, sysdata@, system_layout),
{
    if system_layout {
        string_of(&chars_of(bin))
    } else {
        let mut v = chars_of("env FFPWA_USERDATA=");
        push_str(&mut v, userdata);
        push_str(&mut v, " FFPWA_SYSDATA=");
        push_str(&mut v, sysdata);
        push_str(&mut v, " ");
        push_str(&mut v, bin);
        string_of(&v)
    }
}

/// Whether `XDG_CURRENT_DESKTOP` (a `:`-separated list) names KDE, in any
/// ASCII case.
pub open spec fn is_kde_spec(value: Seq<char>) -> bool {
    exists|i: int| 0 <= i < split(value, ':').len() && eq_ignore_ascii_case(
        #[trigger] split(value, ':')[i],
        "KDE"@,
    )
}

/// Whether the desktop list `value` names KDE.
pub fn is_kde_desktop(value: &str) -> (r: bool)
    ensures
        r == is_kde_spec(value@),
{
    let parts = split_chars(&chars_of(value), ':');
    let kde = chars_of("KDE");
    let mut i: usize = 0;
    while i < parts.len()
        invariant
            i <= parts.len(),
            seqs_of(parts@) == split(value@, ':'),
            kde@ == "KDE"@,
            forall|k: int| 0 <= k < i ==> !eq_ignore_ascii_case(split(value@, ':')[k], "KDE"@),
        decreases parts.len() - i,
    {
        if eq_ignore_case(&parts[i], &kde) {
            assert(split(value@, ':')[i as int] == parts@[i as int]@);
            return true;
        }
        assert(split(value@, ':')[i as int] == parts@[i as int]@);
        i = i + 1;
    }
    false
}

/// The new `kwinrulesrc` text for `site` (launcher class `classid`), or
/// `None` when the app has no Web Apps id yet and the file is left alone.
/// `app_name` is the name shown in the rule's description.
pub fn kwin_rule_update(content: &str, site: &Site, classid: &str, install: bool, app_name: &str) -> (r:
    Option<String>)
    ensures
        match r {
            None => site.config.webapp_id is None,
            Some(text) => site.config.webapp_id matches Some(id) && text@ == kwin_rules_spec(
                content@,
                classid@,
                install,
                app_name@,
                app_id_spec(site.ulid@, id@),
            ),
        },
{
    match &site.config.webapp_id {
        None => None,
        Some(id) => {
            let app_id = taskbar_tab_app_id(site, id.as_str());
            Some(kwin_rules(content, classid, install, app_name, app_id.as_str()))
        },
    }
}

/// The character vectors of `v`'s strings.
fn strings_to_chars(v: &Vec<String>) -> (r: Vec<Vec<char>>)
    ensures
        seqs_of(r@) == strs_of(v@),
{
    let mut r: Vec<Vec<char>> = Vec::new();
    let mut i: usize = 0;
    while i < v.len()
        invariant
            i <= v.len(),
            seqs_of(r@) == strs_of(v@).take(i as int),
        decreases v.len() - i,
    {
        let c = chars_of(v[i].as_str());
        let ghost r0 = seqs_of(r@);
        r.push(c);
        assert(seqs_of(r@) =~= r0.push(v@[i as int]@));
        i = i + 1;
        assert(seqs_of(r@) =~= strs_of(v@).take(i as int));
    }
    assert(strs_of(v@).take(v.len() as int) =~= strs_of(v@));
    r
}

/// The launcher and the KWin rule claim the same window: once the app has
/// a Web Apps id, the rule matches the window class that the launcher's
/// `StartupWMClass` names, so the two cannot drift apart.
pub proof fn window_class_agrees(
    site: Site,
    ids: SiteIds,
    exe: Seq<char>,
    categories: Seq<Seq<char>>,
    app_name: Seq<char>,
)
    requires
        site.config.webapp_id is Some,
    ensures
        crate::kwin::rule_lines(app_name, app_id_spec(site.ulid@, site.config.webapp_id->0@))[2]
            == "wmclass="@ + wmclass_spec(site, ids.classid@),
        ("StartupWMClass="@ + wmclass_spec(site, ids.classid@) + "\n"@).is_suffix_of(
            entry_head(site, ids, exe, categories),
        ),
{
    let h = entry_head(site, ids, exe, categories);
    let t = "StartupWMClass="@ + wmclass_spec(site, ids.classid@) + "\n"@;
    reveal_strlit("\nTerminal=false\nStartupNotify=true\nStartupWMClass=");
    reveal_strlit("StartupWMClass=");
    let long = "\nTerminal=false\nStartupNotify=true\nStartupWMClass="@;
    assert(long.skip(long.len() - 15) =~= "StartupWMClass="@);
    assert(h.skip(h.len() - t.len()) =~= t);
}

/// The numbers `0` to `n - 1`, in decimal.
pub open spec fn numbers_below(n: nat) -> Seq<Seq<char>> {
    Seq::new(n, |i: int| dec(i as nat))
}

proof fn lemma_split_actions(n: nat, y: Seq<char>)
    ensures
        split(actions_text(n) + y, ';') == numbers_below(n) + split(y, ';'),
    decreases n,
{
    if n == 0 {
        assert(actions_text(0) + y =~= y);
        assert(numbers_below(0) + split(y, ';') =~= split(y, ';'));
    } else {
        let m = (n - 1) as nat;
        let d = dec(m);
        let rest = d + seq![';'] + y;
        lemma_split_actions(m, rest);
        assert(actions_text(n) + y =~= actions_text(m) + rest);
        crate::text::lemma_dec_value(m);
        assert(crate::text::free_of(d, ';')) by {
            assert forall|k: int| 0 <= k < d.len() implies d[k] != ';' by {
                assert(crate::text::is_digit(d[k]));
            }
        }
        crate::text::lemma_split_concat(d, y, ';');
        crate::text::lemma_split_free(d, ';');
        assert(numbers_below(m) + (seq![d] + split(y, ';')) =~= numbers_below(n) + split(y, ';'));
    }
}

/// The launcher lists one action per shortcut, in order: the value of its
/// `Actions=` key, split at `;`, is `0`, `1`, …, `n - 1` (and the empty
/// piece after the last `;`), one for each `[Desktop Action i]` group
/// written for the `n` shortcuts.
pub proof fn launcher_lists_every_action(
    site: Site,
    ids: SiteIds,
    exe: Seq<char>,
    categories: Seq<Seq<char>>,
)
    ensures
        exists|pre: Seq<char>, actions: Seq<char>, post: Seq<char>|
            #![trigger split(actions, ';'), pre + post]
            entry_head(site, ids, exe, categories) == pre + "\nActions="@ + actions + "\nMimeType="@ + post
                && crate::text::free_of(actions, '\n') && split(actions, ';') == numbers_below(
                site.manifest.shortcuts.len() as nat,
            ).push(Seq::<char>::empty()),
{
    let n = site.manifest.shortcuts.len() as nat;
    let a = actions_text(n);
    lemma_split_actions(n, Seq::<char>::empty());
    assert(a + Seq::<char>::empty() =~= a);
    assert(numbers_below(n) + split(Seq::<char>::empty(), ';') =~= numbers_below(n).push(Seq::<char>::empty()));
    lemma_actions_no_lf(n);
    reveal_strlit("\nActions=");
    reveal_strlit(" --protocol %u\nActions=");
    reveal_strlit("\nMimeType=");
    let long = " --protocol %u\nActions="@;
    let pre = "[Desktop Entry]\nType=Application\nVersion=1.4\nName="@ + ids.name@ + "\nComment="@
        + ids.description@ + "\nKeywords="@ + join(strs_of(site.keywords@), seq![';'])
        + ";\nCategories=GTK;"@ + join(crate::order::sorted_unique(categories), seq![';']) + ";\nIcon="@
        + ids.classid@ + "\nExec="@ + exe + " site launch "@ + ids.ulid@ + " --protocol %u"@;
    reveal_strlit(" --protocol %u");
    assert(long =~= " --protocol %u"@ + "\nActions="@);
    let post = mime_text(strs_of(site.config.enabled_protocol_handlers@))
        + "\nTerminal=false\nStartupNotify=true\nStartupWMClass="@ + wmclass_spec(site, ids.classid@) + "\n"@;
    assert(entry_head(site, ids, exe, categories) =~= pre + "\nActions="@ + a + "\nMimeType="@ + post);
    assert(split(a, ';') == numbers_below(n).push(Seq::<char>::empty()));
    assert(pre + post == pre + post);
}

proof fn lemma_actions_no_lf(n: nat)
    ensures
        crate::text::free_of(actions_text(n), '\n'),
    decreases n,
{
    if n > 0 {
        let m = (n - 1) as nat;
        lemma_actions_no_lf(m);
        crate::text::lemma_dec_value(m);
        let a = actions_text(m);
        let d = dec(m);
        let t = actions_text(n);
        assert forall|k: int| 0 <= k < t.len() implies t[k] != '\n' by {
            if k < a.len() {
                assert(t[k] == a[k]);
            } else if k < a.len() + d.len() {
                assert(t[k] == d[k - a.len()]);
                assert(crate::text::is_digit(d[k - a.len()]));
            }
        }
    }
}

} // verus!

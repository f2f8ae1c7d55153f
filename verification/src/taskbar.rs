//! Firefox Web Apps (Taskbar Tabs) registry entries and the per-app
//! preferences (`user.js`) that drive out-of-scope link handling.

use vstd::prelude::*;
use crate::order::{sort_dedup, sorted_unique, strictly_sorted};
use crate::site::Site;
use crate::text::{
    chars_of, contains_chars, contains_seq, ends_with, find_char, find_char_in, join, join_chars,
    push_all, push_str, replace_char, replace_char_in, seqs_of, split_once, string_of, strs_of,
    sub_chars,
};
use crate::urls::{path_of, url_path};

verus! {

/// A navigation scope: a hostname and an optional path prefix.
pub struct Scope {
    pub hostname: String,
    pub prefix: Option<String>,
}

/// The abstract value of a [`Scope`].
pub struct ScopeV {
    pub hostname: Seq<char>,
    pub prefix: Option<Seq<char>>,
}

impl View for Scope {
    type V = ScopeV;

    open spec fn view(&self) -> ScopeV {
        ScopeV {
            hostname: self.hostname@,
            prefix: match self.prefix {
                Some(p) => Some(p@),
                None => None,
            },
        }
    }
}

/// One registered web app.
pub struct TaskbarTab {
    pub id: String,
    pub scopes: Vec<Scope>,
    pub user_context_id: u32,
    pub start_url: String,
    pub name: Option<String>,
}

/// The abstract value of a [`TaskbarTab`].
pub struct TaskbarTabV {
    pub id: Seq<char>,
    pub scopes: Seq<ScopeV>,
    pub user_context_id: u32,
    pub start_url: Seq<char>,
    pub name: Option<Seq<char>>,
}

impl View for TaskbarTab {
    type V = TaskbarTabV;

    open spec fn view(&self) -> TaskbarTabV {
        TaskbarTabV {
            id: self.id@,
            scopes: self.scopes@.map_values(|s: Scope| s@),
            user_context_id: self.user_context_id,
            start_url: self.start_url@,
            name: match self.name {
                Some(n) => Some(n@),
                None => None,
            },
        }
    }
}

/// The registry file's content.
pub struct Registry {
    pub version: u32,
    pub taskbar_tabs: Vec<TaskbarTab>,
}

/// The abstract value of a [`Registry`].
pub struct RegistryV {
    pub version: u32,
    pub taskbar_tabs: Seq<TaskbarTabV>,
}

impl View for Registry {
    type V = RegistryV;

    open spec fn view(&self) -> RegistryV {
        RegistryV {
            version: self.version,
            taskbar_tabs: self.taskbar_tabs@.map_values(|t: TaskbarTab| t@),
        }
    }
}

impl Default for Registry {
    /// An empty registry of format version 1.
    fn default() -> (r: Self)
        ensures
            r@.version == 1,
            r@.taskbar_tabs == Seq::<TaskbarTabV>::empty(),
    {
        let r = Registry { version: 1, taskbar_tabs: Vec::new() };
        assert(r@.taskbar_tabs =~= Seq::<TaskbarTabV>::empty());
        r
    }
}

/// Why a registry entry cannot be made.
pub enum TaskbarError {
    /// The web app has no Web Apps id yet.
    MissingWebappId,
}

/// The scope prefix for a manifest scope path: none for an empty or root path.
pub open spec fn prefix_of_path(p: Seq<char>) -> Option<Seq<char>> {
    if p.len() == 0 || p == seq!['/'] {
        None
    } else {
        Some(p)
    }
}

/// The scope of `site`: its domain, and the path of its manifest scope
/// unless that is empty or `/` (a scope text that `url` cannot parse, or a
/// relative scope, gives no prefix).
pub open spec fn scope_spec(site: Site) -> ScopeV {
    ScopeV {
        hostname: site.domain@,
        prefix: match site.manifest.scope {
            Some(t) => match url_path(t@) {
                Some(p) => prefix_of_path(p),
                None => None,
            },
            None => None,
        },
    }
}

/// The scope prefix for a manifest scope, given `Url::path` of it (`None`
/// when it does not parse): the path unless it is empty or `/`.
pub fn scope_prefix(path: Option<String>) -> (r: Option<String>)
    ensures
        crate::urls::opt_view(r) == (match crate::urls::opt_view(path) {
            Some(p) => prefix_of_path(p),
            None => None,
        }),
{
    match path {
        Some(path) => {
            let p = chars_of(path.as_str());
            if p.len() == 0 || (p.len() == 1 && p[0] == '/') {
                proof {
                    if p.len() == 1 {
                        assert(p@ =~= seq!['/']);
                    }
                }
                None
            } else {
                assert(p@ != seq!['/']);
                Some(path)
            }
        },
        None => None,
    }
}

/// The navigation scope of `site`.
pub fn scope_from_site(site: &Site) -> (r: Scope)
    ensures
        r@ == scope_spec(*site),
{
    let hostname = string_of(&chars_of(site.domain.as_str()));
    let prefix = match &site.manifest.scope {
        Some(text) => scope_prefix(path_of(text.as_str())),
        None => None,
    };
    Scope { hostname, prefix }
}

/// The registry entry for `site`, given its Web Apps id.
pub open spec fn entry_spec(site: Site, id: Seq<char>) -> TaskbarTabV {
    TaskbarTabV {
        id: id,
        scopes: seq![scope_spec(site)],
        user_context_id: 0,
        start_url: site.url@,
        name: Some(site.name@),
    }
}

/// The registry entry for `site`; fails when it has no Web Apps id.
pub fn taskbar_tab_for(site: &Site) -> (r: Result<TaskbarTab, TaskbarError>)
    ensures
        match r {
            Ok(t) => site.config.webapp_id matches Some(id) && t@ == entry_spec(*site, id@),
            Err(e) => site.config.webapp_id is None && e == TaskbarError::MissingWebappId,
        },
{
    match &site.config.webapp_id {
        None => Err(TaskbarError::MissingWebappId),
        Some(id) => {
            let mut scopes: Vec<Scope> = Vec::new();
            scopes.push(scope_from_site(site));
            let t = TaskbarTab {
                id: string_of(&chars_of(id.as_str())),
                scopes,
                user_context_id: 0,
                start_url: string_of(&chars_of(site.url.as_str())),
                name: Some(string_of(&chars_of(site.name.as_str()))),
            };
            assert(t@.scopes =~= seq![scope_spec(*site)]);
            Ok(t)
        },
    }
}

/// Index of the first entry of `tabs` with id `id`, or `tabs.len()`.
pub open spec fn index_of_id(tabs: Seq<TaskbarTabV>, id: Seq<char>) -> int
    decreases tabs.len(),
{
    if tabs.len() == 0 {
        0
    } else if tabs[0].id == id {
        0
    } else {
        1 + index_of_id(tabs.drop_first(), id)
    }
}

pub proof fn lemma_index_of_id(tabs: Seq<TaskbarTabV>, id: Seq<char>)
    ensures
        0 <= index_of_id(tabs, id) <= tabs.len(),
        forall|k: int| 0 <= k < index_of_id(tabs, id) ==> tabs[k].id != id,
        index_of_id(tabs, id) < tabs.len() ==> tabs[index_of_id(tabs, id)].id == id,
    decreases tabs.len(),
{
    if tabs.len() > 0 && tabs[0].id != id {
        lemma_index_of_id(tabs.drop_first(), id);
        assert forall|k: int| 0 <= k < index_of_id(tabs, id) implies tabs[k].id != id by {
            if k > 0 {
                assert(tabs[k] == tabs.drop_first()[k - 1]);
            }
        }
    }
}

/// `tabs` with `e` replacing the first entry of the same id, or appended.
pub open spec fn upsert_spec(tabs: Seq<TaskbarTabV>, e: TaskbarTabV) -> Seq<TaskbarTabV> {
    let k = index_of_id(tabs, e.id);
    if k < tabs.len() {
        tabs.update(k, e)
    } else {
        tabs.push(e)
    }
}

proof fn lemma_index_at(tabs: Seq<TaskbarTabV>, id: Seq<char>, j: int)
    requires
        0 <= j <= tabs.len(),
        forall|k: int| 0 <= k < j ==> tabs[k].id != id,
        j < tabs.len() ==> tabs[j].id == id,
    ensures
        index_of_id(tabs, id) == j,
{
    lemma_index_of_id(tabs, id);
    let m = index_of_id(tabs, id);
    if m < j {
        assert(tabs[m].id == id);
    }
    if m > j {
        assert(tabs[j].id != id);
    }
}

/// Writing the entry of an app a second time replaces the first: the
/// registry is as if only the second entry had been written. So writing the
/// same entry twice is writing it once.
pub proof fn upsert_twice(tabs: Seq<TaskbarTabV>, first: TaskbarTabV, second: TaskbarTabV)
    requires
        first.id == second.id,
    ensures
        upsert_spec(upsert_spec(tabs, first), second) == upsert_spec(tabs, second),
{
    let id = first.id;
    lemma_index_of_id(tabs, id);
    let k = index_of_id(tabs, id);
    let r1 = upsert_spec(tabs, first);
    assert forall|j: int| 0 <= j < k implies r1[j].id != id by {
        assert(r1[j] == tabs[j]);
    }
    lemma_index_at(r1, id, k);
}

/// After writing an entry, the registry holds it, found by its id, and every
/// other entry stays where it was; the registry grows by at most one entry,
/// and only when no entry had that id.
pub proof fn upsert_holds_entry(tabs: Seq<TaskbarTabV>, e: TaskbarTabV)
    ensures
        ({
            let r = upsert_spec(tabs, e);
            let k = index_of_id(r, e.id);
            &&& k < r.len()
            &&& r[k] == e
            &&& forall|j: int| 0 <= j < tabs.len() && j != k ==> #[trigger] r[j] == tabs[j]
            &&& r.len() == (if index_of_id(tabs, e.id) < tabs.len() {
                tabs.len()
            } else {
                tabs.len() + 1
            })
        }),
{
    lemma_index_of_id(tabs, e.id);
    let k = index_of_id(tabs, e.id);
    let r = upsert_spec(tabs, e);
    assert forall|j: int| 0 <= j < k implies r[j].id != e.id by {
        assert(r[j] == tabs[j]);
    }
    lemma_index_at(r, e.id, k);
}

/// Replaces the first entry with the id of `entry` by `entry`, or appends
/// `entry` when there is none.
pub fn upsert_tab(registry: &mut Registry, entry: TaskbarTab)
    ensures
        final(registry)@.version == old(registry)@.version,
        final(registry)@.taskbar_tabs == upsert_spec(old(registry)@.taskbar_tabs, entry@),
{
    let ghost tabs = registry@.taskbar_tabs;
    let id = chars_of(entry.id.as_str());
    let n = registry.taskbar_tabs.len();
    let mut i: usize = 0;
    while i < n
        invariant
            i <= n == tabs.len(),
            tabs == registry@.taskbar_tabs,
            id@ == entry@.id,
            forall|k: int| 0 <= k < i ==> tabs[k].id != id@,
        ensures
            i < n ==> tabs[i as int].id == id@,
        decreases n - i,
    {
        let other = chars_of(registry.taskbar_tabs[i].id.as_str());
        if crate::text::eq_chars(&other, &id) {
            break;
        }
        i = i + 1;
    }
    proof {
        lemma_index_of_id(tabs, id@);
        if i < n {
            assert(index_of_id(tabs, id@) == i) by {
                if index_of_id(tabs, id@) > i {
                    assert(tabs[i as int].id != id@);
                }
            }
        } else if index_of_id(tabs, id@) < tabs.len() {
            assert(tabs[index_of_id(tabs, id@)].id == id@);
        }
    }
    let ghost e = entry@;
    if i < n {
        registry.taskbar_tabs.set(i, entry);
        assert(registry@.taskbar_tabs =~= tabs.update(i as int, e));
    } else {
        registry.taskbar_tabs.push(entry);
        assert(registry@.taskbar_tabs =~= tabs.push(e));
    }
}

/// `registry` with the entry for `site` written into it (replacing the
/// entry of the same id); fails, leaving nothing written, when `site` has
/// no Web Apps id.
pub fn updated_registry(registry: Registry, site: &Site) -> (r: Result<Registry, TaskbarError>)
    ensures
        match r {
            Ok(reg) => site.config.webapp_id matches Some(id) && reg@.version == registry@.version
                && reg@.taskbar_tabs == upsert_spec(registry@.taskbar_tabs, entry_spec(*site, id@)),
            Err(e) => site.config.webapp_id is None && e == TaskbarError::MissingWebappId,
        },
{
    match taskbar_tab_for(site) {
        Err(e) => Err(e),
        Ok(entry) => {
            let mut reg = registry;
            upsert_tab(&mut reg, entry);
            Ok(reg)
        },
    }
}


/// Auth/SSO providers kept in-app for every web app, so logins are not sent
/// to the external browser mid-flow.
pub open spec fn auth_domains() -> Seq<Seq<char>> {
    seq![
        "login.microsoftonline.com"@,
        "login.microsoft.com"@,
        "login.live.com"@,
        "login.windows.net"@,
        "*.msftauth.net"@,
        "*.msauth.net"@,
        "*.b2clogin.com"@,
        "accounts.google.com"@,
        "*.okta.com"@,
        "*.auth0.com"@,
        "*.duosecurity.com"@,
        "*.onelogin.com"@,
    ]
}

/// Microsoft 365 service domains, kept in-app for Microsoft web apps.
pub open spec fn microsoft_domains() -> Seq<Seq<char>> {
    seq![
        "*.microsoft.com"@,
        "*.office.com"@,
        "*.office.net"@,
        "*.sharepoint.com"@,
        "*.microsoftonline.com"@,
        "*.cloud.microsoft"@,
        "*.skype.com"@,
        "*.teams.microsoft.com"@,
        "*.microsoftonline-p.com"@,
        "*.azureedge.net"@,
        "*.sharepointonline.com"@,
    ]
}

/// The parent-domain entries for `host`: `*.parent` and `parent`, when the
/// part after the first dot still holds a dot.
pub open spec fn parent_entries(host: Seq<char>) -> Seq<Seq<char>> {
    match split_once(host, '.') {
        Some((_, parent)) => if contains_seq(parent, seq!['.']) {
            seq![seq!['*', '.'] + parent, parent]
        } else {
            Seq::<Seq<char>>::empty()
        },
        None => Seq::<Seq<char>>::empty(),
    }
}

/// Whether `host` looks like a Microsoft web app.
pub open spec fn is_microsoft_host(host: Seq<char>) -> bool {
    ||| "microsoft"@.is_suffix_of(host)
    ||| contains_seq(host, ".microsoft."@)
    ||| contains_seq(host, "office"@)
    ||| contains_seq(host, "teams"@)
}

/// The default in-app domains before sorting: the host, its parent
/// entries, the auth providers, and the Microsoft bundle for Microsoft apps.
pub open spec fn allowed_candidates(host: Seq<char>) -> Seq<Seq<char>> {
    seq![host] + parent_entries(host) + auth_domains() + (if is_microsoft_host(host) {
        microsoft_domains()
    } else {
        Seq::<Seq<char>>::empty()
    })
}

fn push_literal(v: &mut Vec<String>, lit: &str)
    ensures
        strs_of(final(v)@) == strs_of(old(v)@).push(lit@),
{
    let ghost before = strs_of(v@);
    v.push(string_of(&chars_of(lit)));
    assert(strs_of(v@) =~= before.push(lit@));
}

/// The default in-app allow-list for `site`, sorted and without duplicates.
pub fn default_allowed_domains(site: &Site) -> (r: Vec<String>)
    ensures
        strs_of(r@) == sorted_unique(allowed_candidates(site.domain@)),
        strictly_sorted(strs_of(r@)),
        strs_of(r@).to_set() == allowed_candidates(site.domain@).to_set(),
        strs_of(r@).contains(site.domain@),
        forall|i: int| 0 <= i < auth_domains().len() ==> strs_of(r@).contains(#[trigger] auth_domains()[i]),
        is_microsoft_host(site.domain@) ==> forall|i: int|
            0 <= i < microsoft_domains().len() ==> strs_of(r@).contains(#[trigger] microsoft_domains()[i]),
{
    let host = chars_of(site.domain.as_str());
    let mut domains: Vec<String> = Vec::new();
    domains.push(string_of(&host));
    let dot = find_char_in(&host, '.');
    let ghost host_s = host@;
    assert(strs_of(domains@) =~= seq![host_s]);
    if dot < host.len() {
        let parent = sub_chars(&host, dot + 1, host.len());
        let mut dot_seq: Vec<char> = Vec::new();
        dot_seq.push('.');
        if contains_chars(&parent, &dot_seq) {
            let mut wild: Vec<char> = Vec::new();
            wild.push('*');
            wild.push('.');
            push_all(&mut wild, &parent);
            assert(wild@ =~= seq!['*', '.'] + parent@);
            let ghost before = strs_of(domains@);
            domains.push(string_of(&wild));
            domains.push(string_of(&parent));
            assert(strs_of(domains@) =~= before + seq![seq!['*', '.'] + parent@, parent@]);
        }
    }
    assert(strs_of(domains@) =~= seq![host_s] + parent_entries(host_s));
    let ghost with_parent = strs_of(domains@);
    push_literal(&mut domains, "login.microsoftonline.com");
    push_literal(&mut domains, "login.microsoft.com");
    push_literal(&mut domains, "login.live.com");
    push_literal(&mut domains, "login.windows.net");
    push_literal(&mut domains, "*.msftauth.net");
    push_literal(&mut domains, "*.msauth.net");
    push_literal(&mut domains, "*.b2clogin.com");
    push_literal(&mut domains, "accounts.google.com");
    push_literal(&mut domains, "*.okta.com");
    push_literal(&mut domains, "*.auth0.com");
    push_literal(&mut domains, "*.duosecurity.com");
    push_literal(&mut domains, "*.onelogin.com");
    assert(strs_of(domains@) =~= with_parent + auth_domains());
    let ms = ends_with(&host, &chars_of("microsoft")) || contains_chars(&host, &chars_of(".microsoft."))
        || contains_chars(&host, &chars_of("office")) || contains_chars(&host, &chars_of("teams"));
    let ghost with_auth = strs_of(domains@);
    if ms {
        push_literal(&mut domains, "*.microsoft.com");
        push_literal(&mut domains, "*.office.com");
        push_literal(&mut domains, "*.office.net");
        push_literal(&mut domains, "*.sharepoint.com");
        push_literal(&mut domains, "*.microsoftonline.com");
        push_literal(&mut domains, "*.cloud.microsoft");
        push_literal(&mut domains, "*.skype.com");
        push_literal(&mut domains, "*.teams.microsoft.com");
        push_literal(&mut domains, "*.microsoftonline-p.com");
        push_literal(&mut domains, "*.azureedge.net");
        push_literal(&mut domains, "*.sharepointonline.com");
        assert(strs_of(domains@) =~= with_auth + microsoft_domains());
    } else {
        assert(strs_of(domains@) =~= with_auth + Seq::<Seq<char>>::empty());
    }
    assert(strs_of(domains@) == allowed_candidates(host_s));
    let r = sort_dedup(domains);
    proof {
        let c = allowed_candidates(host_s);
        assert(c[0] == host_s);
        assert(c.to_set().contains(host_s));
        assert(strs_of(r@).to_set().contains(host_s));
        assert forall|i: int| 0 <= i < auth_domains().len() implies strs_of(r@).contains(
            #[trigger] auth_domains()[i],
        ) by {
            let k = 1 + parent_entries(host_s).len() + i;
            assert(c[k] == auth_domains()[i]);
            assert(c.to_set().contains(auth_domains()[i]));
            assert(strs_of(r@).to_set().contains(auth_domains()[i]));
        }
        if is_microsoft_host(host_s) {
            assert forall|i: int| 0 <= i < microsoft_domains().len() implies strs_of(r@).contains(
                #[trigger] microsoft_domains()[i],
            ) by {
                let k = 1 + parent_entries(host_s).len() + auth_domains().len() + i;
                assert(c[k] == microsoft_domains()[i]);
                assert(c.to_set().contains(microsoft_domains()[i]));
                assert(strs_of(r@).to_set().contains(microsoft_domains()[i]));
            }
        }
    }
    r
}


/// `true` or `false`, as `Display for bool` writes them.
pub open spec fn bool_text(b: bool) -> Seq<char> {
    if b {
        "true"@
    } else {
        "false"@
    }
}

/// The managed header of `user.js`: the external-link switch and the
/// in-app domain list.
pub open spec fn prefs_head(enabled: bool, list: Seq<char>) -> Seq<char> {
    "// Managed by ffwebapps — do not edit.\nuser_pref(\"ffwebapps.externalLinks.enabled\", "@
        + bool_text(enabled) + ");\nuser_pref(\"ffwebapps.allowedDomains\", \""@ + list
        + "\");\n"@
}

/// Preferences that keep the app off the GPU.
pub open spec fn software_prefs() -> Seq<char> {
    "user_pref(\"gfx.webrender.software\", true);\n\
     user_pref(\"layers.acceleration.disabled\", true);\n\
     user_pref(\"media.hardware-video-decoding.enabled\", false);\n\
     user_pref(\"media.hardware-video-decoding.force-enabled\", false);\n\
     user_pref(\"media.ffmpeg.vaapi.enabled\", false);\n\
     user_pref(\"media.navigator.mediadatadecoder_vp8_hardware_enabled\", false);\n\
     user_pref(\"media.navigator.mediadatadecoder_vp9_hardware_enabled\", false);\n\
     user_pref(\"media.navigator.mediadatadecoder_h264_hardware_enabled\", false);\n"@
}

/// Preferences that force hardware video decoding for calls.
pub open spec fn hardware_prefs() -> Seq<char> {
    "user_pref(\"media.hardware-video-decoding.force-enabled\", true);\n\
     user_pref(\"media.navigator.mediadatadecoder_vp8_hardware_enabled\", true);\n"@
}

/// `s` made safe inside a double-quoted JavaScript string: backslashes
/// doubled first, then quotes escaped.
pub open spec fn escape_quoted(s: Seq<char>) -> Seq<char> {
    replace_char(replace_char(s, '\\', seq!['\\', '\\']), '"', seq!['\\', '"'])
}

/// The User-Agent override preference line for `ua`.
pub open spec fn user_agent_pref(ua: Seq<char>) -> Seq<char> {
    "user_pref(\"general.useragent.override\", \""@ + escape_quoted(ua) + "\");\n"@
}

/// The in-app domains written for `site`: its own list, or the default one
/// when that is empty.
pub open spec fn prefs_domains(site: Site) -> Seq<Seq<char>> {
    if site.config.allowed_domains.len() == 0 {
        sorted_unique(allowed_candidates(site.domain@))
    } else {
        strs_of(site.config.allowed_domains@)
    }
}

/// The whole `user.js` for `site`.
pub open spec fn prefs_spec(site: Site) -> Seq<char> {
    let enabled = match site.config.external_links {
        Some(b) => b,
        None => true,
    };
    prefs_head(enabled, join(prefs_domains(site), seq![','])) + (if site.config.software_rendering {
        software_prefs()
    } else if site.config.hardware_webrtc {
        hardware_prefs()
    } else {
        Seq::<char>::empty()
    }) + (match site.config.user_agent {
        Some(ua) => if ua@.len() > 0 {
            user_agent_pref(ua@)
        } else {
            Seq::<char>::empty()
        },
        None => Seq::<char>::empty(),
    })
}

/// Copies of the views of `v`'s strings as character vectors.
fn char_vecs(v: &Vec<String>) -> (r: Vec<Vec<char>>)
    ensures
        seqs_of(r@) == strs_of(v@),
{
    let mut r: Vec<Vec<char>> = Vec::new();
    let mut i: usize = 0;
    while i < v.len()
        invariant
            i <= v.len(),
            seqs_of(r@) == strs_of(v@).take(i as int),
        decreases v.len() - i,
    {
        let c = chars_of(v[i].as_str());
        let ghost r0 = seqs_of(r@);
        r.push(c);
        assert(seqs_of(r@) =~= r0.push(v@[i as int]@));
        i = i + 1;
        assert(seqs_of(r@) =~= strs_of(v@).take(i as int));
    }
    assert(strs_of(v@).take(v.len() as int) =~= strs_of(v@));
    r
}

/// The per-app preferences (`user.js`) for `site`: whether out-of-scope
/// links go to the browser, which domains stay in-app, the rendering
/// opt-ins (software rendering wins over hardware WebRTC), and the
/// User-Agent override when one is set.
pub fn profile_prefs(site: &Site) -> (r: String)
    ensures
        r@ == prefs_spec(*site),
{
    let enabled = match site.config.external_links {
        Some(b) => b,
        None => true,
    };
    let domains = if site.config.allowed_domains.len() == 0 {
        default_allowed_domains(site)
    } else {
        let c = char_vecs(&site.config.allowed_domains);
        let mut copy: Vec<String> = Vec::new();
        let mut i: usize = 0;
        while i < c.len()
            invariant
                i <= c.len(),
                strs_of(copy@) == seqs_of(c@).take(i as int),
            decreases c.len() - i,
        {
            let ghost c0 = strs_of(copy@);
            copy.push(string_of(&c[i]));
            assert(strs_of(copy@) =~= c0.push(c@[i as int]@));
            i = i + 1;
            assert(strs_of(copy@) =~= seqs_of(c@).take(i as int));
        }
        assert(seqs_of(c@).take(c.len() as int) =~= seqs_of(c@));
        copy
    };
    assert(strs_of(domains@) == prefs_domains(*site));
    let lists = char_vecs(&domains);
    let mut comma: Vec<char> = Vec::new();
    comma.push(',');
    let list = join_chars(&lists, &comma);
    let mut out = chars_of(
        "// Managed by ffwebapps — do not edit.\nuser_pref(\"ffwebapps.externalLinks.enabled\", ",
    );
    if enabled {
        push_str(&mut out, "true");
    } else {
        push_str(&mut out, "false");
    }
    push_str(&mut out, ");\nuser_pref(\"ffwebapps.allowedDomains\", \"");
    push_all(&mut out, &list);
    push_str(&mut out, "\");\n");
    let ghost head = out@;
    assert(head =~= prefs_head(enabled, join(prefs_domains(*site), seq![','])));
    if site.config.software_rendering {
        push_str(
            &mut out,
            "user_pref(\"gfx.webrender.software\", true);\n\
             user_pref(\"layers.acceleration.disabled\", true);\n\
             user_pref(\"media.hardware-video-decoding.enabled\", false);\n\
             user_pref(\"media.hardware-video-decoding.force-enabled\", false);\n\
             user_pref(\"media.ffmpeg.vaapi.enabled\", false);\n\
             user_pref(\"media.navigator.mediadatadecoder_vp8_hardware_enabled\", false);\n\
             user_pref(\"media.navigator.mediadatadecoder_vp9_hardware_enabled\", false);\n\
             user_pref(\"media.navigator.mediadatadecoder_h264_hardware_enabled\", false);\n",
        );
    } else if site.config.hardware_webrtc {
        push_str(
            &mut out,
            "user_pref(\"media.hardware-video-decoding.force-enabled\", true);\n\
             user_pref(\"media.navigator.mediadatadecoder_vp8_hardware_enabled\", true);\n",
        );
    }
    let ghost mid = out@;
    let ghost render = if site.config.software_rendering {
        software_prefs()
    } else if site.config.hardware_webrtc {
        hardware_prefs()
    } else {
        Seq::<char>::empty()
    };
    assert(mid =~= head + render);
    match &site.config.user_agent {
        Some(ua) => {
            let u = chars_of(ua.as_str());
            if u.len() > 0 {
                let mut backslash: Vec<char> = Vec::new();
                backslash.push('\\');
                backslash.push('\\');
                let mut quote: Vec<char> = Vec::new();
                quote.push('\\');
                quote.push('"');
                let once = replace_char_in(&u, '\\', &backslash);
                let twice = replace_char_in(&once, '"', &quote);
                assert(backslash@ =~= seq!['\\', '\\']);
                assert(quote@ =~= seq!['\\', '"']);
                push_str(&mut out, "user_pref(\"general.useragent.override\", \"");
                push_all(&mut out, &twice);
                push_str(&mut out, "\");\n");
                assert(out@ =~= mid + user_agent_pref(ua@));
            } else {
                assert(out@ =~= mid + Seq::<char>::empty());
            }
        },
        None => {
            assert(out@ =~= mid + Seq::<char>::empty());
        },
    }
    string_of(&out)
}

/// The preferences open with the external-link switch as stored, on when
/// none is stored, and the in-app domain list: the app's own list, or the
/// default one when that is empty.
pub proof fn prefs_follow_settings(site: Site)
    ensures
        ("// Managed by ffwebapps — do not edit.\nuser_pref(\"ffwebapps.externalLinks.enabled\", "@ + (if site.config.external_links
            == Some(false) {
            "false"@
        } else {
            "true"@
        }) + ");\nuser_pref(\"ffwebapps.allowedDomains\", \""@ + join(
            if site.config.allowed_domains.len() == 0 {
                sorted_unique(allowed_candidates(site.domain@))
            } else {
                strs_of(site.config.allowed_domains@)
            },
            seq![','],
        ) + "\");\n"@).is_prefix_of(prefs_spec(site)),
{
    let head = prefs_head(
        match site.config.external_links {
            Some(b) => b,
            None => true,
        },
        join(prefs_domains(site), seq![',']),
    );
    let p = prefs_spec(site);
    assert(p.subrange(0, head.len() as int) =~= head);
}

/// A web app's navigation scope is its host, narrowed to the manifest
/// scope's URL path whenever that path says more than the whole site: the
/// prefix is that path exactly when it is neither empty nor `/`, and there
/// is none otherwise, nor when the scope is missing or does not parse.
pub proof fn scope_keeps_path(site: Site)
    ensures
        scope_spec(site).hostname == site.domain@,
        scope_spec(site).prefix == (match site.manifest.scope {
            Some(t) => match url_path(t@) {
                Some(p) => if p.len() > 0 && p != seq!['/'] {
                    Some(p)
                } else {
                    None
                },
                None => None,
            },
            None => None,
        }),
{
}

} // verus!

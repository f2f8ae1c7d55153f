//! Turning the values of the GUI's editors into updates, and the texts the
//! GUI shows.

use vstd::prelude::*;
use crate::order::{str_less, str_lt};
use crate::site::Site;
use crate::text::{
    chars_of, dec, dec_chars, join, join_chars, lines, lines_chars, push_all, push_str, seqs_of,
    find_char, split, split_chars, split_once, string_of, strs_of, trim, trim_chars, trim_end,
    trim_start,
};
use crate::urls::{host_of, opt_view, parse_url, scheme_of, url_host, url_parse, url_scheme};

verus! {

/// The trimmed, non-empty items of `xs`.
pub open spec fn trimmed_nonempty(xs: Seq<Seq<char>>) -> Seq<Seq<char>>
    decreases xs.len(),
{
    if xs.len() == 0 {
        Seq::<Seq<char>>::empty()
    } else {
        let r = trimmed_nonempty(xs.drop_last());
        if trim(xs.last()).len() > 0 {
            r.push(trim(xs.last()))
        } else {
            r
        }
    }
}

/// The items of a comma-separated entry: split at commas, trimmed, empty
/// ones dropped.
pub open spec fn csv_items(text: Seq<char>) -> Seq<Seq<char>> {
    trimmed_nonempty(split(text, ','))
}

fn keep_trimmed(xs: &Vec<Vec<char>>) -> (r: Vec<String>)
    ensures
        strs_of(r@) == trimmed_nonempty(seqs_of(xs@)),
{
    let ghost s = seqs_of(xs@);
    let mut r: Vec<String> = Vec::new();
    let mut i: usize = 0;
    assert(strs_of(r@) =~= trimmed_nonempty(s.take(0)));
    while i < xs.len()
        invariant
            i <= xs.len(),
            s == seqs_of(xs@),
            strs_of(r@) == trimmed_nonempty(s.take(i as int)),
        decreases xs.len() - i,
    {
        proof {
            assert(s.take(i + 1).drop_last() =~= s.take(i as int));
            assert(s.take(i + 1).last() == s[i as int]);
        }
        let t = trim_chars(&xs[i]);
        if t.len() > 0 {
            let ghost r0 = strs_of(r@);
            r.push(string_of(&t));
            assert(strs_of(r@) =~= r0.push(trim(s[i as int])));
        }
        i = i + 1;
    }
    assert(s.take(xs.len() as int) =~= s);
    r
}

/// Splits a comma-separated entry into trimmed, non-empty items.
pub fn parse_csv(text: &str) -> (r: Vec<String>)
    ensures
        strs_of(r@) == csv_items(text@),
        forall|i: int| 0 <= i < r@.len() ==> clean_item(#[trigger] r@[i]@),
{
    let parts = split_chars(&chars_of(text), ',');
    let r = keep_trimmed(&parts);
    proof {
        lemma_csv_items_clean(text@);
        assert(strs_of(r@) == csv_items(text@));
        assert forall|i: int| 0 <= i < r@.len() implies clean_item(#[trigger] r@[i]@) by {
            assert(strs_of(r@)[i] == r@[i]@);
            assert(clean_item(csv_items(text@)[i]));
        }
    }
    r
}

/// The update of an override text field: `None` leaves it, `Some(None)`
/// clears it, `Some(Some(v))` sets it to `v`.
pub open spec fn opt_opt_spec(original: Option<Seq<char>>, text: Seq<char>) -> Option<Option<Seq<char>>> {
    let t = trim(text);
    if original is None && t.len() == 0 {
        None
    } else if original == Some(t) {
        None
    } else if t.len() == 0 {
        Some(None)
    } else {
        Some(Some(t))
    }
}

/// The views of an optional optional string.
pub open spec fn opt_opt_view(o: Option<Option<String>>) -> Option<Option<Seq<char>>> {
    match o {
        None => None,
        Some(None) => Some(None),
        Some(Some(s)) => Some(Some(s@)),
    }
}

/// Diffs an override field (such as the name) against its original value:
/// leave it when it still has no override or is unchanged, clear it when
/// the entry was emptied, set it otherwise. The entry is trimmed.
pub fn opt_opt_string(original: Option<&str>, text: &str) -> (r: Option<Option<String>>)
    ensures
        opt_opt_view(r) == opt_opt_spec(
            match original {
                Some(o) => Some(o@),
                None => None,
            },
            text@,
        ),
{
    let t = trim_chars(&chars_of(text));
    match original {
        None => {
            if t.len() == 0 {
                None
            } else {
                Some(Some(string_of(&t)))
            }
        },
        Some(o) => {
            let ov = chars_of(o);
            if crate::text::eq_chars(&ov, &t) {
                None
            } else if t.len() == 0 {
                Some(None)
            } else {
                Some(Some(string_of(&t)))
            }
        },
    }
}

/// The update of the external-links setting (unset means on).
pub open spec fn external_links_spec(original: Option<bool>, switch_on: bool) -> Option<bool> {
    if switch_on && original is None {
        None
    } else {
        Some(switch_on)
    }
}

/// Diffs the external-links switch (unset means on): keep it unset while
/// the switch stays on, otherwise store the switch.
pub fn external_links_value(original: Option<bool>, switch_on: bool) -> (r: Option<bool>)
    ensures
        r == external_links_spec(original, switch_on),
{
    if switch_on && original.is_none() {
        None
    } else {
        Some(switch_on)
    }
}

/// Whether two lists of strings hold the same strings.
fn same_strings(a: &Vec<String>, b: &[String]) -> (r: bool)
    ensures
        r == (strs_of(a@) == strs_of(b@)),
{
    if a.len() != b.len() {
        assert(strs_of(a@).len() != strs_of(b@).len());
        return false;
    }
    let mut i: usize = 0;
    while i < a.len()
        invariant
            i <= a.len() == b.len(),
            forall|k: int| 0 <= k < i ==> a@[k]@ == b@[k]@,
        decreases a.len() - i,
    {
        if a[i] != b[i] {
            assert(strs_of(a@)[i as int] != strs_of(b@)[i as int]);
            return false;
        }
        i = i + 1;
    }
    assert(strs_of(a@) =~= strs_of(b@));
    true
}

/// The views of an optional list of strings.
pub open spec fn opt_strs(o: Option<Vec<String>>) -> Option<Seq<Seq<char>>> {
    match o {
        None => None,
        Some(v) => Some(strs_of(v@)),
    }
}

/// The update of an optional list field from its comma-separated entry:
/// `None` leaves it unchanged, `Some([""])` clears it, `Some(items)` sets it.
pub open spec fn vec_opt_spec(original: Option<Seq<Seq<char>>>, text: Seq<char>) -> Option<Seq<Seq<char>>> {
    let items = csv_items(text);
    let current = match original {
        Some(v) => v,
        None => Seq::<Seq<char>>::empty(),
    };
    if items == current {
        None
    } else if items.len() == 0 {
        Some(seq![Seq::<char>::empty()])
    } else {
        Some(items)
    }
}

/// Diffs an optional list field (categories, keywords) against its entry.
pub fn vec_opt_update(original: &Option<Vec<String>>, text: &str) -> (r: Option<Vec<String>>)
    ensures
        opt_strs(r) == vec_opt_spec(opt_strs(*original), text@),
{
    let items = parse_csv(text);
    let empty: Vec<String> = Vec::new();
    let same = match original {
        Some(v) => same_strings(&items, v.as_slice()),
        None => {
            assert(strs_of(empty@) =~= Seq::<Seq<char>>::empty());
            same_strings(&items, empty.as_slice())
        },
    };
    if same {
        None
    } else if items.len() == 0 {
        let mut v: Vec<String> = Vec::new();
        v.push(String::new());
        assert(strs_of(v@) =~= seq![Seq::<char>::empty()]);
        Some(v)
    } else {
        Some(items)
    }
}

/// Diffs a plain list field (URL and protocol handlers) against its entry:
/// `None` leaves it, `Some(items)` sets it (an empty list clears it).
pub fn vec_plain_update(original: &[String], text: &str) -> (r: Option<Vec<String>>)
    ensures
        opt_strs(r) == (if csv_items(text@) == strs_of(original@) {
            None
        } else {
            Some(csv_items(text@))
        }),
{
    let items = parse_csv(text);
    if same_strings(&items, original) {
        None
    } else {
        Some(items)
    }
}

/// The host shown for `site`: the host of its manifest URL, or of its
/// document URL when the manifest is a `data:` URL; empty when there is none.
pub open spec fn site_domain_spec(site: Site) -> Seq<char> {
    let url = if url_scheme(site.config.manifest_url@) != Some("data"@) {
        site.config.manifest_url@
    } else {
        site.config.document_url@
    };
    match url_host(url) {
        Some(Some(h)) => h,
        _ => Seq::<char>::empty(),
    }
}

/// Whether the host shown for a web app is read from its manifest URL, given
/// that URL's scheme (`None` when it does not parse): yes unless it is a
/// `data:` URL.
pub fn uses_manifest_url(manifest_scheme: &Option<String>) -> (r: bool)
    ensures
        r == (opt_view(*manifest_scheme) != Some("data"@)),
{
    match manifest_scheme {
        Some(s) => !crate::text::eq_chars(&chars_of(s.as_str()), &chars_of("data")),
        None => true,
    }
}

/// The host shown for a URL, given `Url::host_str` of it (`None` when it
/// does not parse): the host, or empty when there is none.
pub fn host_or_empty(host: Option<Option<String>>) -> (r: String)
    ensures
        r@ == (match host {
            Some(Some(h)) => h@,
            _ => Seq::<char>::empty(),
        }),
{
    match host {
        Some(Some(h)) => h,
        _ => String::new(),
    }
}

/// A host string for `site` that never fails.
pub fn site_domain(site: &Site) -> (r: String)
    ensures
        r@ == site_domain_spec(*site),
{
    let url = if uses_manifest_url(&scheme_of(site.config.manifest_url.as_str())) {
        &site.config.manifest_url
    } else {
        &site.config.document_url
    };
    host_or_empty(host_of(url.as_str()))
}

/// The first of `cands` that is non-blank, trimmed.
pub open spec fn first_nonblank(cands: Seq<Option<Seq<char>>>) -> Option<Seq<char>>
    decreases cands.len(),
{
    if cands.len() == 0 {
        None
    } else {
        match cands[0] {
            Some(c) => if trim(c).len() > 0 {
                Some(trim(c))
            } else {
                first_nonblank(cands.drop_first())
            },
            None => first_nonblank(cands.drop_first()),
        }
    }
}

/// The name candidates of `site`, in order of preference: the custom name,
/// the manifest's name, its short name.
pub open spec fn name_candidates(site: Site) -> Seq<Option<Seq<char>>> {
    seq![
        crate::urls::opt_view(site.config.name),
        crate::urls::opt_view(site.manifest.name),
        crate::urls::opt_view(site.manifest.short_name),
    ]
}

/// The name shown for `site`: the first non-blank of its custom name, the
/// manifest's name and short name (trimmed), else its host.
pub open spec fn display_name_spec(site: Site) -> Seq<char> {
    match first_nonblank(name_candidates(site)) {
        Some(n) => n,
        None => site_domain_spec(site),
    }
}

/// A display name for `site` that never fails.
pub fn site_display_name(site: &Site) -> (r: String)
    ensures
        r@ == display_name_spec(*site),
{
    let ghost c = name_candidates(*site);
    proof {
        reveal_with_fuel(first_nonblank, 4);
        assert(c.drop_first() =~= seq![c[1], c[2]]);
        assert(c.drop_first().drop_first() =~= seq![c[2]]);
        assert(c.drop_first().drop_first().drop_first() =~= Seq::<Option<Seq<char>>>::empty());
    }
    if let Some(n) = &site.config.name {
        let t = trim_chars(&chars_of(n.as_str()));
        if t.len() > 0 {
            return string_of(&t);
        }
    }
    if let Some(n) = &site.manifest.name {
        let t = trim_chars(&chars_of(n.as_str()));
        if t.len() > 0 {
            return string_of(&t);
        }
    }
    if let Some(n) = &site.manifest.short_name {
        let t = trim_chars(&chars_of(n.as_str()));
        if t.len() > 0 {
            return string_of(&t);
        }
    }
    site_domain(site)
}


/// A URL entry that the `url` crate rejects.
pub struct InvalidUrl {
    /// Which field it was entered in (`start`, `icon`, …).
    pub field: String,
    /// The text as entered.
    pub text: String,
}

impl InvalidUrl {
    /// `Invalid <field> URL: <text>`.
    pub fn message(&self) -> (r: String)
        ensures
            r@ == "Invalid "@ + self.field@ + " URL: "@ + self.text@,
    {
        let mut v = chars_of("Invalid ");
        push_str(&mut v, self.field.as_str());
        push_str(&mut v, " URL: ");
        push_str(&mut v, self.text.as_str());
        string_of(&v)
    }
}

/// Parses a URL update (see [`opt_opt_string`]): a set value must be a URL
/// that `url` accepts once trimmed; it is kept as the parsed URL's text.
pub fn parse_opt_opt_url(value: Option<Option<String>>, field: &str) -> (r: Result<
    Option<Option<String>>,
    InvalidUrl,
>)
    ensures
        match value {
            None => r matches Ok(v) && v is None,
            Some(None) => r matches Ok(v) && v == Some(None::<String>),
            Some(Some(text)) => match url_parse(trim(text@)) {
                Some(u) => r matches Ok(v) && opt_opt_view(v) == Some(Some(u)),
                None => r matches Err(e) && e.field@ == field@ && e.text@ == text@,
            },
        },
{
    match value {
        None => Ok(None),
        Some(None) => Ok(Some(None)),
        Some(Some(text)) => {
            let t = string_of(&trim_chars(&chars_of(text.as_str())));
            match parse_url(t.as_str()) {
                Some(u) => Ok(Some(Some(u))),
                None => Err(InvalidUrl { field: string_of(&chars_of(field)), text }),
            }
        },
    }
}

/// What the install form collects.
pub struct InstallParams {
    pub manifest_url: String,
    pub document_url: Option<String>,
    /// The target profile's ULID (text), or the default profile.
    pub profile: Option<String>,
    pub name: Option<String>,
    pub launch_on_login: bool,
    pub launch_on_browser: bool,
    pub hardware_webrtc: bool,
    pub software_rendering: bool,
}

/// Why an install form is refused.
pub enum InstallError {
    /// `Invalid manifest URL`.
    InvalidManifestUrl,
    /// `Invalid document URL`.
    InvalidDocumentUrl,
}

/// The manifest URL and optional document URL of an install form, parsed
/// (as texts of the parsed URLs). A blank document URL means none.
pub fn install_urls(params: &InstallParams) -> (r: Result<(String, Option<String>), InstallError>)
    ensures
        match url_parse(trim(params.manifest_url@)) {
            None => r matches Err(e) && e == InstallError::InvalidManifestUrl,
            Some(m) => match params.document_url {
                Some(d) if trim(d@).len() > 0 => match url_parse(trim(d@)) {
                    None => r matches Err(e) && e == InstallError::InvalidDocumentUrl,
                    Some(du) => r matches Ok(p) && p.0@ == m && opt_view(p.1) == Some(du),
                },
                _ => r matches Ok(p) && p.0@ == m && p.1 is None,
            },
        },
{
    let m = string_of(&trim_chars(&chars_of(params.manifest_url.as_str())));
    let manifest = match parse_url(m.as_str()) {
        Some(u) => u,
        None => return Err(InstallError::InvalidManifestUrl),
    };
    match &params.document_url {
        Some(d) => {
            let t = trim_chars(&chars_of(d.as_str()));
            if t.len() > 0 {
                match parse_url(string_of(&t).as_str()) {
                    Some(u) => Ok((manifest, Some(u))),
                    None => Err(InstallError::InvalidDocumentUrl),
                }
            } else {
                Ok((manifest, None))
            }
        },
        None => Ok((manifest, None)),
    }
}

/// `No web apps`, `1 web app` or `<n> web apps`.
pub open spec fn app_count_spec(count: nat) -> Seq<char> {
    if count == 0 {
        "No web apps"@
    } else if count == 1 {
        "1 web app"@
    } else {
        dec(count) + " web apps"@
    }
}

/// The label for a profile holding `count` web apps.
pub fn app_count_label(count: usize) -> (r: String)
    ensures
        r@ == app_count_spec(count as nat),
{
    if count == 0 {
        string_of(&chars_of("No web apps"))
    } else if count == 1 {
        string_of(&chars_of("1 web app"))
    } else {
        let mut v = dec_chars(count as u64);
        push_str(&mut v, " web apps");
        string_of(&v)
    }
}

/// A profile row's subtitle: `<description> · <n> apps`, or `<n> apps`
/// when there is no description.
pub fn profile_subtitle(description: Option<&str>, count: usize) -> (r: String)
    ensures
        r@ == (match description {
            Some(d) if d@.len() > 0 => d@ + " · "@ + dec(count as nat) + " apps"@,
            _ => dec(count as nat) + " apps"@,
        }),
{
    let mut v: Vec<char> = Vec::new();
    match description {
        Some(d) => {
            if !d.is_empty() {
                push_str(&mut v, d);
                push_str(&mut v, " · ");
            }
        },
        None => {},
    }
    let ghost v0 = v@;
    push_all(&mut v, &dec_chars(count as u64));
    push_str(&mut v, " apps");
    assert(v@ =~= v0 + dec(count as nat) + " apps"@);
    string_of(&v)
}

/// The runtime status line: `Installed · version <v>` or `Not installed`.
pub fn runtime_status(version: Option<&str>) -> (r: String)
    ensures
        r@ == (match version {
            Some(v) => "Installed · version "@ + v@,
            None => "Not installed"@,
        }),
{
    match version {
        Some(v) => {
            let mut t = chars_of("Installed · version ");
            push_str(&mut t, v);
            string_of(&t)
        },
        None => string_of(&chars_of("Not installed")),
    }
}


/// The global settings and the extra runtime arguments and environment.
pub struct ConfigEdits {
    pub always_patch: bool,
    pub runtime_enable_wayland: bool,
    pub runtime_use_xinput2: bool,
    pub runtime_use_portals: bool,
    pub use_linked_runtime: bool,
    pub arguments: Vec<String>,
    /// Extra environment variables, ordered by name, each name once.
    pub variables: Vec<(String, String)>,
}

/// The views of name/value pairs.
pub open spec fn pairs_of(v: Seq<(String, String)>) -> Seq<(Seq<char>, Seq<char>)> {
    v.map_values(|p: (String, String)| (p.0@, p.1@))
}

impl ConfigEdits {
    /// The variables are ordered by name, each name once.
    pub open spec fn wf(&self) -> bool {
        names_sorted(pairs_of(self.variables@))
    }
}

/// Every name is below every later one (so each name occurs once).
pub open spec fn names_sorted(ps: Seq<(Seq<char>, Seq<char>)>) -> bool {
    forall|i: int, j: int| 0 <= i < j < ps.len() ==> str_lt(#[trigger] ps[i].0, #[trigger] ps[j].0)
}

/// The value of `name` after setting the pairs in order (a later value of
/// a name replaces an earlier one); `None` when `name` is not set.
pub open spec fn lookup(ps: Seq<(Seq<char>, Seq<char>)>, name: Seq<char>) -> Option<Seq<char>>
    decreases ps.len(),
{
    if ps.len() == 0 {
        None
    } else if ps.last().0 == name {
        Some(ps.last().1)
    } else {
        lookup(ps.drop_last(), name)
    }
}

pub proof fn lemma_lookup_sorted(ps: Seq<(Seq<char>, Seq<char>)>, name: Seq<char>)
    requires
        names_sorted(ps),
    ensures
        forall|i: int| 0 <= i < ps.len() && ps[i].0 == name ==> lookup(ps, name) == Some(ps[i].1),
        (forall|i: int| 0 <= i < ps.len() ==> ps[i].0 != name) ==> lookup(ps, name) is None,
    decreases ps.len(),
{
    if ps.len() > 0 {
        let d = ps.drop_last();
        assert(names_sorted(d));
        lemma_lookup_sorted(d, name);
        assert forall|i: int| 0 <= i < ps.len() && ps[i].0 == name implies lookup(ps, name) == Some(
            ps[i].1,
        ) by {
            if i < ps.len() - 1 {
                if ps.last().0 == name {
                    assert(str_lt(ps[i].0, ps[ps.len() - 1].0));
                    crate::order::lemma_str_lt_irrefl(name);
                }
                assert(d[i] == ps[i]);
            }
        }
        if forall|i: int| 0 <= i < ps.len() ==> ps[i].0 != name {
            assert(ps[ps.len() - 1].0 != name);
            assert forall|i: int| 0 <= i < d.len() implies d[i].0 != name by {
                assert(d[i] == ps[i]);
            }
        }
    }
}

/// `name=value` lines, one per variable.
pub open spec fn variables_text(ps: Seq<(Seq<char>, Seq<char>)>) -> Seq<char> {
    join(ps.map_values(|p: (Seq<char>, Seq<char>)| p.0 + seq!['='] + p.1), seq!['\n'])
}

/// Writes the variables as `name=value` lines.
pub fn variables_to_text(variables: &Vec<(String, String)>) -> (r: String)
    ensures
        r@ == variables_text(pairs_of(variables@)),
{
    let ghost ps = pairs_of(variables@);
    let ghost items = ps.map_values(|p: (Seq<char>, Seq<char>)| p.0 + seq!['='] + p.1);
    let mut lines_v: Vec<Vec<char>> = Vec::new();
    let mut i: usize = 0;
    while i < variables.len()
        invariant
            i <= variables.len(),
            ps == pairs_of(variables@),
            items == ps.map_values(|p: (Seq<char>, Seq<char>)| p.0 + seq!['='] + p.1),
            seqs_of(lines_v@) == items.take(i as int),
        decreases variables.len() - i,
    {
        let mut l = chars_of(variables[i].0.as_str());
        l.push('=');
        push_str(&mut l, variables[i].1.as_str());
        let ghost r0 = seqs_of(lines_v@);
        assert(l@ == items[i as int]);
        lines_v.push(l);
        assert(seqs_of(lines_v@) =~= r0.push(items[i as int]));
        i = i + 1;
        assert(seqs_of(lines_v@) =~= items.take(i as int));
    }
    assert(items.take(variables.len() as int) =~= items);
    let mut nl: Vec<char> = Vec::new();
    nl.push('\n');
    string_of(&join_chars(&lines_v, &nl))
}

/// The arguments of a one-per-line text: lines trimmed, blank ones dropped.
pub open spec fn arguments_spec(text: Seq<char>) -> Seq<Seq<char>> {
    trimmed_nonempty(lines(text))
}

/// Reads one argument per line.
pub fn text_to_arguments(text: &str) -> (r: Vec<String>)
    ensures
        strs_of(r@) == arguments_spec(text@),
{
    let ls = lines_chars(&chars_of(text));
    keep_trimmed(&ls)
}

/// The `name=value` pairs of a text: per line, trimmed; blank lines and
/// lines without `=` dropped; name and value split at the first `=` and
/// trimmed.
pub open spec fn variable_pairs(ls: Seq<Seq<char>>) -> Seq<(Seq<char>, Seq<char>)>
    decreases ls.len(),
{
    if ls.len() == 0 {
        Seq::<(Seq<char>, Seq<char>)>::empty()
    } else {
        let r = variable_pairs(ls.drop_last());
        let t = trim(ls.last());
        if t.len() == 0 {
            r
        } else {
            match split_once(t, '=') {
                Some((k, v)) => r.push((trim(k), trim(v))),
                None => r,
            }
        }
    }
}

/// Sets `name` to `value` in the name-ordered `vars` (replacing the value
/// of an equal name, else inserting it in order).
fn insert_variable(vars: &mut Vec<(String, String)>, name: String, value: String)
    requires
        names_sorted(pairs_of(old(vars)@)),
    ensures
        names_sorted(pairs_of(final(vars)@)),
        forall|k: Seq<char>| #[trigger] lookup(pairs_of(final(vars)@), k) == (if k == name@ {
            Some(value@)
        } else {
            lookup(pairs_of(old(vars)@), k)
        }),
{
    let ghost s = pairs_of(vars@);
    let ghost nv = name@;
    let ghost vv = value@;
    let mut j: usize = 0;
    while j < vars.len() && str_less(&vars[j].0, &name)
        invariant
            j <= vars.len(),
            s == pairs_of(vars@),
            nv == name@,
            forall|k: int| 0 <= k < j ==> str_lt(#[trigger] s[k].0, nv),
        decreases vars.len() - j,
    {
        j = j + 1;
    }
    if j < vars.len() && vars[j].0 == name {
        vars.set(j, (name, value));
        let ghost n = pairs_of(vars@);
        assert(n =~= s.update(j as int, (nv, vv)));
        proof {
            assert(names_sorted(n)) by {
                assert forall|a: int, b: int| 0 <= a < b < n.len() implies str_lt(
                    #[trigger] n[a].0,
                    #[trigger] n[b].0,
                ) by {
                    assert(n[a].0 == s[a].0 && n[b].0 == s[b].0);
                }
            }
            assert forall|k: Seq<char>| #[trigger] lookup(n, k) == (if k == nv {
                Some(vv)
            } else {
                lookup(s, k)
            }) by {
                lemma_lookup_sorted(n, k);
                lemma_lookup_sorted(s, k);
                if k == nv {
                    assert(n[j as int].0 == k);
                } else if exists|i: int| 0 <= i < s.len() && s[i].0 == k {
                    let i = choose|i: int| 0 <= i < s.len() && s[i].0 == k;
                    assert(n[i] == s[i]);
                } else {
                    assert forall|i: int| 0 <= i < n.len() implies n[i].0 != k by {
                        if i != j {
                            assert(n[i] == s[i]);
                        }
                    }
                }
            }
        }
    } else {
        proof {
            if j < s.len() {
                assert(s[j as int].0 != nv);
                crate::order::lemma_str_lt_total(s[j as int].0, nv);
            }
        }
        vars.insert(j, (name, value));
        let ghost n = pairs_of(vars@);
        assert(n =~= s.insert(j as int, (nv, vv)));
        proof {
            assert(names_sorted(n)) by {
                assert forall|a: int, b: int| 0 <= a < b < n.len() implies str_lt(
                    #[trigger] n[a].0,
                    #[trigger] n[b].0,
                ) by {
                    if b < j {
                    } else if a < j && b == j {
                    } else if a < j {
                        assert(n[b] == s[b - 1]);
                    } else if a == j {
                        assert(n[b] == s[b - 1]);
                        if b - 1 > j {
                            crate::order::lemma_str_lt_trans(nv, s[j as int].0, s[b - 1].0);
                        }
                    } else {
                        assert(n[a] == s[a - 1]);
                        assert(n[b] == s[b - 1]);
                    }
                }
            }
            assert forall|k: Seq<char>| #[trigger] lookup(n, k) == (if k == nv {
                Some(vv)
            } else {
                lookup(s, k)
            }) by {
                lemma_lookup_sorted(n, k);
                lemma_lookup_sorted(s, k);
                if k == nv {
                    assert(n[j as int].0 == k);
                } else if exists|i: int| 0 <= i < s.len() && s[i].0 == k {
                    let i = choose|i: int| 0 <= i < s.len() && s[i].0 == k;
                    if i < j {
                        assert(n[i] == s[i]);
                    } else {
                        assert(n[i + 1] == s[i]);
                    }
                } else {
                    assert forall|i: int| 0 <= i < n.len() implies n[i].0 != k by {
                        if i < j {
                            assert(n[i] == s[i]);
                        } else if i > j {
                            assert(n[i] == s[i - 1]);
                        }
                    }
                }
            }
        }
    }
}

/// Reads `name=value` lines into name-ordered variables.
pub fn text_to_variables(text: &str) -> (r: Vec<(String, String)>)
    ensures
        names_sorted(pairs_of(r@)),
        forall|k: Seq<char>| #[trigger] lookup(pairs_of(r@), k) == lookup(variable_pairs(lines(text@)), k),
{
    let ls = lines_chars(&chars_of(text));
    let ghost lv = seqs_of(ls@);
    let mut vars: Vec<(String, String)> = Vec::new();
    let mut i: usize = 0;
    assert(pairs_of(vars@) =~= Seq::<(Seq<char>, Seq<char>)>::empty());
    assert(lv.take(0) =~= Seq::<Seq<char>>::empty());
    while i < ls.len()
        invariant
            i <= ls.len(),
            lv == seqs_of(ls@),
            names_sorted(pairs_of(vars@)),
            forall|k: Seq<char>| #[trigger] lookup(pairs_of(vars@), k) == lookup(
                variable_pairs(lv.take(i as int)),
                k,
            ),
        decreases ls.len() - i,
    {
        let ghost prev = variable_pairs(lv.take(i as int));
        proof {
            assert(lv.take(i + 1).drop_last() =~= lv.take(i as int));
            assert(lv.take(i + 1).last() == lv[i as int]);
        }
        let t = trim_chars(&ls[i]);
        if t.len() > 0 {
            let eq = crate::text::find_char_in(&t, '=');
            if eq < t.len() {
                let k = trim_chars(&crate::text::sub_chars(&t, 0, eq));
                let v = trim_chars(&crate::text::sub_chars(&t, eq + 1, t.len()));
                proof {
                    assert(t@.take(eq as int) =~= t@.subrange(0, eq as int));
                    assert(t@.skip(eq + 1) =~= t@.subrange(eq + 1, t@.len() as int));
                    assert(variable_pairs(lv.take(i + 1)) == prev.push((k@, v@)));
                    assert forall|key: Seq<char>| #[trigger] lookup(prev.push((k@, v@)), key) == (if key == k@ {
                        Some(v@)
                    } else {
                        lookup(prev, key)
                    }) by {
                        assert(prev.push((k@, v@)).drop_last() =~= prev);
                    }
                }
                insert_variable(&mut vars, string_of(&k), string_of(&v));
            }
        }
        i = i + 1;
    }
    assert(lv.take(ls.len() as int) =~= lv);
    vars
}

/// An item as a list entry shows it: trimmed, non-empty, without a comma.
pub open spec fn clean_item(x: Seq<char>) -> bool {
    trim(x) == x && x.len() > 0 && crate::text::free_of(x, ',')
}

/// `xs` with a space put before every item but the first.
spec fn spaced(xs: Seq<Seq<char>>) -> Seq<Seq<char>> {
    Seq::new(xs.len(), |i: int| if i == 0 { xs[i] } else { seq![' '] + xs[i] })
}

proof fn lemma_join_spaced(xs: Seq<Seq<char>>)
    ensures
        join(xs, ", "@) == join(spaced(xs), seq![',']),
    decreases xs.len(),
{
    reveal_strlit(", ");
    if xs.len() >= 2 {
        let d = xs.drop_last();
        lemma_join_spaced(d);
        assert(spaced(xs).drop_last() =~= spaced(d));
        assert(spaced(xs).last() == seq![' '] + xs.last());
        assert(join(xs, ", "@) =~= join(spaced(xs), seq![',']));
    }
}

proof fn lemma_trimmed_spaced(xs: Seq<Seq<char>>)
    requires
        forall|i: int| 0 <= i < xs.len() ==> clean_item(#[trigger] xs[i]),
    ensures
        trimmed_nonempty(spaced(xs)) == xs,
    decreases xs.len(),
{
    if xs.len() > 0 {
        let d = xs.drop_last();
        assert forall|i: int| 0 <= i < d.len() implies clean_item(#[trigger] d[i]) by {
            assert(d[i] == xs[i]);
        }
        lemma_trimmed_spaced(d);
        assert(spaced(xs).drop_last() =~= spaced(d));
        let l = xs.last();
        assert(clean_item(xs[xs.len() - 1]));
        if xs.len() > 1 {
            let sl = seq![' '] + l;
            assert(sl.drop_first() =~= l);
            assert(crate::text::is_ws(sl[0]));
            assert(trim(sl) == trim(l));
        }
        assert(trim(spaced(xs).last()) == l);
        assert(d.push(l) =~= xs);
    }
}

/// What a list editor shows, read back, is the list: joining clean items
/// with ", " and splitting the text at commas gives the items again.
pub proof fn csv_round_trip(items: Seq<Seq<char>>)
    requires
        forall|i: int| 0 <= i < items.len() ==> clean_item(#[trigger] items[i]),
    ensures
        csv_items(join(items, ", "@)) == items,
{
    lemma_join_spaced(items);
    let ys = spaced(items);
    assert forall|i: int| 0 <= i < ys.len() implies crate::text::free_of(#[trigger] ys[i], ',') by {
        assert(clean_item(items[i]));
        if i > 0 {
            assert forall|k: int| 0 <= k < ys[i].len() implies ys[i][k] != ',' by {
                if k > 0 {
                    assert(ys[i][k] == items[i][k - 1]);
                }
            }
        }
    }
    crate::text::lemma_split_join(ys, ',');
    lemma_trimmed_spaced(items);
    if items.len() == 0 {
        let one = seq![Seq::<char>::empty()];
        assert(one.drop_last() =~= Seq::<Seq<char>>::empty());
        assert(trim(one.last()) =~= Seq::<char>::empty());
        assert(trimmed_nonempty(one) == trimmed_nonempty(one.drop_last()));
    }
}

/// An editor left as it was filled gives no update: a list field shown as
/// its items joined with ", " (an unset one shown empty), an override text
/// shown as itself (an unset one shown empty), and the external-links switch
/// shown as its value (unset shows on).
pub proof fn untouched_editors_leave_fields(items: Seq<Seq<char>>, text: Seq<char>, links: Option<bool>)
    requires
        forall|i: int| 0 <= i < items.len() ==> clean_item(#[trigger] items[i]),
        trim(text) == text,
    ensures
        vec_opt_spec(Some(items), join(items, ", "@)) is None,
        vec_opt_spec(None, Seq::<char>::empty()) is None,
        csv_items(join(items, ", "@)) == items,
        opt_opt_spec(Some(text), text) is None,
        opt_opt_spec(None, Seq::<char>::empty()) is None,
        external_links_spec(links, links.unwrap_or(true)) == links,
{
    csv_round_trip(items);
    csv_round_trip(Seq::<Seq<char>>::empty());
    assert(join(Seq::<Seq<char>>::empty(), ", "@) =~= Seq::<char>::empty());
    assert(trim(Seq::<char>::empty()) =~= Seq::<char>::empty());
}

proof fn lemma_trimmed_nonempty_id(xs: Seq<Seq<char>>)
    requires
        forall|i: int| 0 <= i < xs.len() ==> trim(#[trigger] xs[i]) == xs[i] && xs[i].len() > 0,
    ensures
        trimmed_nonempty(xs) == xs,
    decreases xs.len(),
{
    if xs.len() > 0 {
        let d = xs.drop_last();
        assert forall|i: int| 0 <= i < d.len() implies trim(#[trigger] d[i]) == d[i] && d[i].len() > 0 by {
            assert(d[i] == xs[i]);
        }
        lemma_trimmed_nonempty_id(d);
        assert(trim(xs[xs.len() - 1]) == xs[xs.len() - 1]);
        assert(d.push(xs.last()) =~= xs);
    }
}

/// Lines joined with line feeds read back as the lines, when each is
/// non-empty, holds no line feed and does not end in a carriage return.
proof fn lemma_lines_join(items: Seq<Seq<char>>)
    requires
        forall|i: int| 0 <= i < items.len() ==> #[trigger] items[i].len() > 0 && crate::text::free_of(
            items[i],
            '\n',
        ) && items[i].last() != '\r',
    ensures
        lines(join(items, seq!['\n'])) == items,
    decreases items.len(),
{
    if items.len() == 0 {
        assert(join(items, seq!['\n']) =~= Seq::<char>::empty());
        assert(lines(Seq::<char>::empty()) =~= items);
    } else {
        let s = join(items, seq!['\n']);
        crate::text::lemma_split_join(items, '\n');
        assert(items[items.len() - 1].len() > 0);
        assert(s.last() == items.last().last()) by {
            if items.len() > 1 {
                let d = items.drop_last();
                assert(s == join(d, seq!['\n']) + seq!['\n'] + items.last());
            }
        }
        assert(s.last() != '\n') by {
            assert(crate::text::free_of(items[items.len() - 1], '\n'));
            let l = items.last();
            assert(l[l.len() - 1] != '\n');
        }
        assert forall|i: int| 0 <= i < items.drop_last().len() implies crate::text::strip_cr(
            #[trigger] items.drop_last()[i],
        ) == items.drop_last()[i] by {
            assert(items.drop_last()[i] == items[i]);
        }
        assert(items.drop_last().map_values(|l: Seq<char>| crate::text::strip_cr(l)) =~= items.drop_last());
        assert(items.drop_last().push(items.last()) =~= items);
    }
}

/// An argument as the arguments editor shows it: trimmed, non-empty and on
/// one line.
pub open spec fn clean_argument(x: Seq<char>) -> bool {
    trim(x) == x && x.len() > 0 && crate::text::free_of(x, '\n')
}

/// The arguments editor reads back what it shows: arguments written one
/// per line are read back as the same arguments.
pub proof fn arguments_round_trip(args: Seq<Seq<char>>)
    requires
        forall|i: int| 0 <= i < args.len() ==> clean_argument(#[trigger] args[i]),
    ensures
        arguments_spec(join(args, seq!['\n'])) == args,
{
    assert forall|i: int| 0 <= i < args.len() implies #[trigger] args[i].len() > 0 && crate::text::free_of(
        args[i],
        '\n',
    ) && args[i].last() != '\r' by {
        assert(clean_argument(args[i]));
        crate::text::lemma_trimmed_ends(args[i]);
    }
    lemma_lines_join(args);
    assert forall|i: int| 0 <= i < args.len() implies trim(#[trigger] args[i]) == args[i] && args[i].len() > 0 by {
        assert(clean_argument(args[i]));
    }
    lemma_trimmed_nonempty_id(args);
}

/// A variable as the variables editor shows it: a trimmed name without
/// `=`, and a trimmed value, both on one line.
pub open spec fn clean_variable(p: (Seq<char>, Seq<char>)) -> bool {
    &&& trim(p.0) == p.0
    &&& crate::text::free_of(p.0, '=')
    &&& crate::text::free_of(p.0, '\n')
    &&& trim(p.1) == p.1
    &&& crate::text::free_of(p.1, '\n')
}

proof fn lemma_variable_line(p: (Seq<char>, Seq<char>))
    requires
        clean_variable(p),
    ensures
        ({
            let l = p.0 + seq!['='] + p.1;
            &&& l.len() > 0
            &&& crate::text::free_of(l, '\n')
            &&& l.last() != '\r'
            &&& trim(l) == l
            &&& split_once(l, '=') == Some(p)
        }),
{
    let l = p.0 + seq!['='] + p.1;
    if p.0.len() > 0 {
        crate::text::lemma_trimmed_ends(p.0);
        assert(l[0] == p.0[0]);
    } else {
        assert(l[0] == '=');
        assert(!crate::text::is_ws('='));
    }
    if p.1.len() > 0 {
        crate::text::lemma_trimmed_ends(p.1);
        assert(l.last() == p.1.last());
    } else {
        assert(l.last() == '=');
        assert(!crate::text::is_ws('='));
    }
    crate::text::lemma_trimmed_by_ends(l);
    assert forall|k: int| 0 <= k < l.len() implies l[k] != '\n' by {
        if k < p.0.len() {
            assert(l[k] == p.0[k]);
        } else if k > p.0.len() {
            assert(l[k] == p.1[k - p.0.len() - 1]);
        }
    }
    crate::text::lemma_find_char(l, '=');
    let i = find_char(l, '=');
    assert(i == p.0.len()) by {
        if i < p.0.len() {
            assert(l[i] == p.0[i]);
        }
        if i > p.0.len() {
            assert(l[p.0.len() as int] == '=');
        }
    }
    assert(l.take(i) =~= p.0);
    assert(l.skip(i + 1) =~= p.1);
}

/// The variables editor reads back what it shows: variables written as
/// `name=value` lines are read back as the same variables, in order.
pub proof fn variables_round_trip(ps: Seq<(Seq<char>, Seq<char>)>)
    requires
        forall|i: int| 0 <= i < ps.len() ==> clean_variable(#[trigger] ps[i]),
    ensures
        variable_pairs(lines(variables_text(ps))) == ps,
{
    let items = ps.map_values(|p: (Seq<char>, Seq<char>)| p.0 + seq!['='] + p.1);
    assert forall|i: int| 0 <= i < items.len() implies #[trigger] items[i].len() > 0 && crate::text::free_of(
        items[i],
        '\n',
    ) && items[i].last() != '\r' by {
        lemma_variable_line(ps[i]);
    }
    lemma_lines_join(items);
    lemma_variable_pairs_of_lines(ps);
}

proof fn lemma_variable_pairs_of_lines(ps: Seq<(Seq<char>, Seq<char>)>)
    requires
        forall|i: int| 0 <= i < ps.len() ==> clean_variable(#[trigger] ps[i]),
    ensures
        variable_pairs(ps.map_values(|p: (Seq<char>, Seq<char>)| p.0 + seq!['='] + p.1)) == ps,
    decreases ps.len(),
{
    if ps.len() > 0 {
        let d = ps.drop_last();
        assert forall|i: int| 0 <= i < d.len() implies clean_variable(#[trigger] d[i]) by {
            assert(d[i] == ps[i]);
        }
        lemma_variable_pairs_of_lines(d);
        let items = ps.map_values(|p: (Seq<char>, Seq<char>)| p.0 + seq!['='] + p.1);
        assert(items.drop_last() =~= d.map_values(|p: (Seq<char>, Seq<char>)| p.0 + seq!['='] + p.1));
        let p = ps.last();
        assert(clean_variable(ps[ps.len() - 1]));
        lemma_variable_line(p);
        assert(items.last() == p.0 + seq!['='] + p.1);
        assert(d.push(p) =~= ps);
    }
}

/// Settings with every switch off and no arguments or variables.
pub fn empty_config() -> (r: ConfigEdits)
    ensures
        !r.always_patch && !r.runtime_enable_wayland && !r.runtime_use_xinput2,
        !r.runtime_use_portals && !r.use_linked_runtime,
        r.arguments@.len() == 0,
        r.variables@.len() == 0,
        r.wf(),
{
    ConfigEdits {
        always_patch: false,
        runtime_enable_wayland: false,
        runtime_use_xinput2: false,
        runtime_use_portals: false,
        use_linked_runtime: false,
        arguments: Vec::new(),
        variables: Vec::new(),
    }
}

/// The title of a profile row: its name, or `Unnamed profile`.
pub fn profile_title(name: Option<&str>) -> (r: String)
    ensures
        r@ == (match name {
            Some(n) => n@,
            None => "Unnamed profile"@,
        }),
{
    match name {
        Some(n) => string_of(&chars_of(n)),
        None => string_of(&chars_of("Unnamed profile")),
    }
}

/// The scheduling policies the editor offers, by index: none, `nice:`,
/// `rr:`, `fifo:`, `batch`, `idle`; and the priority text of a policy that
/// takes one (trimmed, still to be read as a number).
pub open spec fn sched_policy_spec(spec: Option<Seq<char>>) -> (u32, Option<Seq<char>>) {
    match spec {
        Some(s) => if "nice:"@.is_prefix_of(s) {
            (1, Some(trim(s.skip(5))))
        } else if "rr:"@.is_prefix_of(s) {
            (2, Some(trim(s.skip(3))))
        } else if "fifo:"@.is_prefix_of(s) {
            (3, Some(trim(s.skip(5))))
        } else if s == "batch"@ {
            (4, None)
        } else if s == "idle"@ {
            (5, None)
        } else {
            (0, None)
        },
        None => (0, None),
    }
}

/// Reads a scheduling setting into the editor's policy index and the text of
/// its priority.
pub fn sched_policy(spec: Option<&str>) -> (r: (u32, Option<String>))
    ensures
        r.0 == sched_policy_spec(opt_of(spec)).0,
        opt_view(r.1) == sched_policy_spec(opt_of(spec)).1,
{
    match spec {
        None => (0, None),
        Some(s) => {
            let v = chars_of(s);
            if crate::text::starts_with(&v, &chars_of("nice:")) {
                proof { reveal_strlit("nice:"); }
                let t = trim_chars(&crate::text::sub_chars(&v, 5, v.len()));
                assert(v@.subrange(5, v@.len() as int) =~= v@.skip(5));
                (1, Some(string_of(&t)))
            } else if crate::text::starts_with(&v, &chars_of("rr:")) {
                proof { reveal_strlit("rr:"); }
                let t = trim_chars(&crate::text::sub_chars(&v, 3, v.len()));
                assert(v@.subrange(3, v@.len() as int) =~= v@.skip(3));
                (2, Some(string_of(&t)))
            } else if crate::text::starts_with(&v, &chars_of("fifo:")) {
                proof { reveal_strlit("fifo:"); }
                let t = trim_chars(&crate::text::sub_chars(&v, 5, v.len()));
                assert(v@.subrange(5, v@.len() as int) =~= v@.skip(5));
                (3, Some(string_of(&t)))
            } else if crate::text::eq_chars(&v, &chars_of("batch")) {
                (4, None)
            } else if crate::text::eq_chars(&v, &chars_of("idle")) {
                (5, None)
            } else {
                (0, None)
            }
        },
    }
}

/// The view of an optional string slice.
pub open spec fn opt_of(o: Option<&str>) -> Option<Seq<char>> {
    match o {
        Some(s) => Some(s@),
        None => None,
    }
}

/// Signed decimal notation of `x`.
pub open spec fn idec(x: int) -> Seq<char> {
    if x < 0 {
        seq!['-'] + dec((-x) as nat)
    } else {
        dec(x as nat)
    }
}

/// Signed decimal notation of `x`.
pub fn idec_chars(x: i64) -> (r: Vec<char>)
    ensures
        r@ == idec(x as int),
{
    if x < 0 {
        let m: u64 = (0i128 - x as i128) as u64;
        let mut v: Vec<char> = Vec::new();
        v.push('-');
        push_all(&mut v, &dec_chars(m));
        v
    } else {
        dec_chars(x as u64)
    }
}

/// The scheduling setting for policy index `index` and whole priority
/// `priority`; empty for no policy.
pub open spec fn compose_spec(index: u32, priority: int) -> Seq<char> {
    if index == 1 {
        "nice:"@ + idec(priority)
    } else if index == 2 {
        "rr:"@ + idec(priority)
    } else if index == 3 {
        "fifo:"@ + idec(priority)
    } else if index == 4 {
        "batch"@
    } else if index == 5 {
        "idle"@
    } else {
        Seq::<char>::empty()
    }
}

/// The scheduling setting for the editor's policy index and (whole)
/// priority; empty for no policy.
pub fn compose_sched(index: u32, priority: i64) -> (r: String)
    ensures
        r@ == compose_spec(index, priority as int),
{
    if index == 1 || index == 2 || index == 3 {
        let mut v = if index == 1 {
            chars_of("nice:")
        } else if index == 2 {
            chars_of("rr:")
        } else {
            chars_of("fifo:")
        };
        push_all(&mut v, &idec_chars(priority));
        string_of(&v)
    } else if index == 4 {
        string_of(&chars_of("batch"))
    } else if index == 5 {
        string_of(&chars_of("idle"))
    } else {
        String::new()
    }
}

/// The confirmation for removing profile `name`: its heading, its text and
/// the confirming button. The default profile is only cleared of its web
/// apps and data; any other profile is removed.
pub fn removal_prompt(name: &str, is_default: bool) -> (r: (String, String, String))
    ensures
        r.0@ == (if is_default {
            "Clear “"@
        } else {
            "Remove “"@
        }) + name@ + "”?"@,
        r.1@ == (if is_default {
            "Removes all web apps and data in the Default profile. The profile itself stays."@
        } else {
            "Permanently removes the profile and all of its web apps and data."@
        }),
        r.2@ == (if is_default {
            "Clear"@
        } else {
            "Remove"@
        }),
{
    let mut heading = if is_default {
        chars_of("Clear “")
    } else {
        chars_of("Remove “")
    };
    push_str(&mut heading, name);
    push_str(&mut heading, "”?");
    let body = if is_default {
        chars_of("Removes all web apps and data in the Default profile. The profile itself stays.")
    } else {
        chars_of("Permanently removes the profile and all of its web apps and data.")
    };
    let button = if is_default {
        chars_of("Clear")
    } else {
        chars_of("Remove")
    };
    (string_of(&heading), string_of(&body), string_of(&button))
}

proof fn lemma_trimmed_nonempty_clean(xs: Seq<Seq<char>>)
    requires
        forall|i: int| 0 <= i < xs.len() ==> crate::text::free_of(#[trigger] xs[i], ','),
    ensures
        forall|i: int| 0 <= i < trimmed_nonempty(xs).len() ==> clean_item(#[trigger] trimmed_nonempty(xs)[i]),
    decreases xs.len(),
{
    if xs.len() > 0 {
        let d = xs.drop_last();
        assert forall|i: int| 0 <= i < d.len() implies crate::text::free_of(#[trigger] d[i], ',') by {
            assert(d[i] == xs[i]);
        }
        lemma_trimmed_nonempty_clean(d);
        let l = xs.last();
        assert(crate::text::free_of(xs[xs.len() - 1], ','));
        crate::text::lemma_trim_shape(l);
        let (lo, hi) = choose|lo: int, hi: int| 0 <= lo <= hi <= l.len() && trim(l) == l.subrange(lo, hi);
        assert forall|k: int| 0 <= k < trim(l).len() implies trim(l)[k] != ',' by {
            assert(trim(l)[k] == l[lo + k]);
        }
        let r = trimmed_nonempty(d);
        if trim(l).len() > 0 {
            assert forall|i: int| 0 <= i < r.push(trim(l)).len() implies clean_item(#[trigger] r.push(trim(l))[i]) by {
                if i < r.len() {
                    assert(r.push(trim(l))[i] == r[i]);
                }
            }
        }
    }
}

/// The items of a comma-separated entry are each trimmed, non-empty and
/// free of commas.
pub proof fn lemma_csv_items_clean(text: Seq<char>)
    ensures
        forall|i: int| 0 <= i < csv_items(text).len() ==> clean_item(#[trigger] csv_items(text)[i]),
{
    lemma_split_sep_free_comma(text);
    lemma_trimmed_nonempty_clean(split(text, ','));
}

proof fn lemma_split_sep_free_comma(s: Seq<char>)
    ensures
        forall|i: int| 0 <= i < split(s, ',').len() ==> crate::text::free_of(#[trigger] split(s, ',')[i], ','),
    decreases s.len(),
{
    if s.len() > 0 {
        let t = s.drop_first();
        lemma_split_sep_free_comma(t);
        crate::text::lemma_split_nonempty(t, ',');
        let r = split(t, ',');
        if s[0] == ',' {
            assert forall|i: int| 0 <= i < split(s, ',').len() implies crate::text::free_of(
                #[trigger] split(s, ',')[i],
                ',',
            ) by {
                if i > 0 {
                    assert(split(s, ',')[i] == r[i - 1]);
                }
            }
        } else {
            assert forall|i: int| 0 <= i < split(s, ',').len() implies crate::text::free_of(
                #[trigger] split(s, ',')[i],
                ',',
            ) by {
                if i > 0 {
                    assert(split(s, ',')[i] == r[i]);
                } else {
                    let q = seq![s[0]] + r[0];
                    assert(split(s, ',')[0] == q);
                    assert forall|k: int| 0 <= k < q.len() implies q[k] != ',' by {
                        if k > 0 {
                            assert(q[k] == r[0][k - 1]);
                        }
                    }
                }
            }
        }
    }
}

/// Clean items joined with bare commas read back as the items.
pub proof fn csv_round_trip_comma(items: Seq<Seq<char>>)
    requires
        forall|i: int| 0 <= i < items.len() ==> clean_item(#[trigger] items[i]),
    ensures
        csv_items(join(items, seq![','])) == items,
{
    assert forall|i: int| 0 <= i < items.len() implies crate::text::free_of(#[trigger] items[i], ',') by {
        assert(clean_item(items[i]));
    }
    crate::text::lemma_split_join(items, ',');
    if items.len() == 0 {
        let one = seq![Seq::<char>::empty()];
        assert(one.drop_last() =~= Seq::<Seq<char>>::empty());
        assert(trim(one.last()) =~= Seq::<char>::empty());
        assert(trimmed_nonempty(one) == trimmed_nonempty(one.drop_last()));
    } else {
        assert forall|i: int| 0 <= i < items.len() implies trim(#[trigger] items[i]) == items[i] && items[i].len()
            > 0 by {
            assert(clean_item(items[i]));
        }
        lemma_trimmed_nonempty_id(items);
    }
}

/// What the list parser reads, joined again with commas (with or without a
/// space after each), reads back the same.
pub proof fn csv_reparse(text: Seq<char>)
    ensures
        csv_items(join(csv_items(text), seq![','])) == csv_items(text),
        csv_items(join(csv_items(text), ", "@)) == csv_items(text),
{
    lemma_csv_items_clean(text);
    csv_round_trip_comma(csv_items(text));
    csv_round_trip(csv_items(text));
}

/// The names of `ps`, in order.
pub open spec fn names_of(ps: Seq<(Seq<char>, Seq<char>)>) -> Seq<Seq<char>> {
    ps.map_values(|p: (Seq<char>, Seq<char>)| p.0)
}

/// Two name-ordered lists of variables that give every name the same value
/// are the same list.
pub proof fn lemma_sorted_lookup_eq(a: Seq<(Seq<char>, Seq<char>)>, b: Seq<(Seq<char>, Seq<char>)>)
    requires
        names_sorted(a),
        names_sorted(b),
        forall|k: Seq<char>| #[trigger] lookup(a, k) == lookup(b, k),
    ensures
        a == b,
{
    let na = names_of(a);
    let nb = names_of(b);
    assert(crate::order::strictly_sorted(na)) by {
        assert forall|i: int, j: int| 0 <= i < j < na.len() implies crate::order::str_lt(
            #[trigger] na[i],
            #[trigger] na[j],
        ) by {
            assert(str_lt(a[i].0, a[j].0));
        }
    }
    assert(crate::order::strictly_sorted(nb)) by {
        assert forall|i: int, j: int| 0 <= i < j < nb.len() implies crate::order::str_lt(
            #[trigger] nb[i],
            #[trigger] nb[j],
        ) by {
            assert(str_lt(b[i].0, b[j].0));
        }
    }
    assert forall|x: Seq<char>| na.to_set().contains(x) implies nb.to_set().contains(x) by {
        let i = choose|i: int| 0 <= i < na.len() && na[i] == x;
        lemma_lookup_sorted(a, x);
        lemma_lookup_sorted(b, x);
        assert(a[i].0 == x);
        if forall|j: int| 0 <= j < b.len() ==> b[j].0 != x {
            assert(lookup(b, x) is None);
        }
        let j = choose|j: int| 0 <= j < b.len() && b[j].0 == x;
        assert(nb[j] == x);
    }
    assert forall|x: Seq<char>| nb.to_set().contains(x) implies na.to_set().contains(x) by {
        let j = choose|j: int| 0 <= j < nb.len() && nb[j] == x;
        lemma_lookup_sorted(a, x);
        lemma_lookup_sorted(b, x);
        assert(b[j].0 == x);
        if forall|i: int| 0 <= i < a.len() ==> a[i].0 != x {
            assert(lookup(a, x) is None);
        }
        let i = choose|i: int| 0 <= i < a.len() && a[i].0 == x;
        assert(na[i] == x);
    }
    assert(na.to_set() =~= nb.to_set());
    crate::order::lemma_sorted_unique(na, nb);
    assert(a.len() == b.len()) by {
        assert(na.len() == nb.len());
    }
    assert forall|i: int| 0 <= i < a.len() implies a[i] == b[i] by {
        assert(na[i] == nb[i]);
        let x = a[i].0;
        lemma_lookup_sorted(a, x);
        lemma_lookup_sorted(b, x);
        assert(b[i].0 == x);
    }
    assert(a =~= b);
}

/// The settings page reads back the variables it shows: for name-ordered
/// variables written as `name=value` lines, any name-ordered list that gives
/// each name the value the text gives it (as `text_to_variables` returns)
/// is the list of variables itself.
pub proof fn variables_read_back(ps: Seq<(Seq<char>, Seq<char>)>, read: Seq<(Seq<char>, Seq<char>)>)
    requires
        forall|i: int| 0 <= i < ps.len() ==> clean_variable(#[trigger] ps[i]),
        names_sorted(ps),
        names_sorted(read),
        forall|k: Seq<char>| #[trigger] lookup(read, k) == lookup(variable_pairs(lines(variables_text(ps))), k),
    ensures
        read == ps,
{
    variables_round_trip(ps);
    lemma_sorted_lookup_eq(read, ps);
}

/// The value of an optional form entry: the trimmed text, or `None` when it
/// is blank.
pub fn opt(text: &str) -> (r: Option<String>)
    ensures
        opt_view(r) == (if trim(text@).len() == 0 {
            None
        } else {
            Some(trim(text@))
        }),
{
    let t = trim_chars(&chars_of(text));
    if t.len() == 0 {
        None
    } else {
        Some(string_of(&t))
    }
}

/// The signed decimal notation of `n` is trimmed, does not start with `+`,
/// and reads back as `n`.
proof fn lemma_idec_reads_back(n: i64)
    ensures
        idec(n as int).len() > 0,
        trim(idec(n as int)) == idec(n as int),
        idec(n as int)[0] != '+',
        crate::text::parse_i64_spec(idec(n as int)) == Some(n),
{
    let s = idec(n as int);
    if n < 0 {
        let m: nat = (-n) as nat;
        crate::text::lemma_dec_value(m);
        let d = dec(m);
        assert(d.len() > 0);
        assert(s.drop_first() =~= d);
        assert(s.last() == d.last());
        assert(crate::text::is_digit(d[d.len() - 1]));
        assert(!crate::text::is_ws('-'));
        crate::text::lemma_trimmed_by_ends(s);
        assert(crate::text::digits_value(d) == m);
        assert(m <= 0x8000_0000_0000_0000);
    } else {
        crate::text::lemma_dec_value(n as nat);
        let d = dec(n as nat);
        assert(d.len() > 0);
        assert(crate::text::is_digit(d[0]));
        assert(crate::text::is_digit(d[d.len() - 1]));
        crate::text::lemma_trimmed_by_ends(s);
    }
}

/// The scheduling editor reads back what it writes: a setting composed from
/// a policy index and a whole priority reads as that index and the
/// priority's decimal text, which reads back as the priority; `batch` and
/// `idle` read as their index with no priority; no policy is the empty
/// setting, and no setting reads as no policy.
pub proof fn sched_round_trip(index: u32, priority: i64)
    ensures
        1 <= index <= 3 ==> sched_policy_spec(Some(compose_spec(index, priority as int))) == (
            index,
            Some(idec(priority as int)),
        ) && crate::text::parse_i64_spec(idec(priority as int)) == Some(priority),
        (index == 4 || index == 5) ==> sched_policy_spec(Some(compose_spec(index, priority as int))) == (
            index,
            None::<Seq<char>>,
        ),
        (index == 0 || index > 5) ==> compose_spec(index, priority as int) == Seq::<char>::empty(),
        sched_policy_spec(None) == (0u32, None::<Seq<char>>),
{
    reveal_strlit("nice:");
    reveal_strlit("rr:");
    reveal_strlit("fifo:");
    reveal_strlit("batch");
    reveal_strlit("idle");
    lemma_idec_reads_back(priority);
    let t = idec(priority as int);
    let c = compose_spec(index, priority as int);
    if index == 1 {
        assert(c.subrange(0, 5) =~= "nice:"@);
        assert(c.skip(5) =~= t);
    } else if index == 2 {
        assert(c.subrange(0, 3) =~= "rr:"@);
        assert(c.skip(3) =~= t);
        assert(c[0] != "nice:"@[0]);
    } else if index == 3 {
        assert(c.subrange(0, 5) =~= "fifo:"@);
        assert(c.skip(5) =~= t);
        assert(c[0] != "nice:"@[0]);
        assert(c[0] != "rr:"@[0]);
    } else if index == 4 {
        assert(c[0] != "nice:"@[0]);
        assert(c[0] != "rr:"@[0]);
        assert(c[0] != "fifo:"@[0]);
        assert(c != "idle"@);
    } else if index == 5 {
        assert(c[0] != "rr:"@[0]);
        assert(!"nice:"@.is_prefix_of(c));
        assert(!"fifo:"@.is_prefix_of(c));
        assert(c != "batch"@);
    }
}

/// The profile form's title and confirming button: editing a profile saves
/// it, otherwise a new one is created.
pub fn profile_form_labels(editing: bool) -> (r: (String, String))
    ensures
        r.0@ == (if editing {
            "Edit profile"@
        } else {
            "New profile"@
        }),
        r.1@ == (if editing {
            "Save"@
        } else {
            "Create"@
        }),
{
    if editing {
        (string_of(&chars_of("Edit profile")), string_of(&chars_of("Save")))
    } else {
        (string_of(&chars_of("New profile")), string_of(&chars_of("Create")))
    }
}

/// An override field's update: a non-blank entry that differs from the
/// stored value sets the field to the trimmed entry; an entry equal to the
/// stored value, or a blank one where nothing is stored, leaves it; a blank
/// entry where a value is stored clears it.
pub proof fn override_update_law(original: Option<Seq<char>>, text: Seq<char>)
    ensures
        trim(text).len() > 0 && original != Some(trim(text)) ==> opt_opt_spec(original, text) == Some(
            Some(trim(text)),
        ),
        original == Some(trim(text)) ==> opt_opt_spec(original, text) is None,
        trim(text).len() == 0 && original is None ==> opt_opt_spec(original, text) is None,
        trim(text).len() == 0 && original is Some && original != Some(trim(text)) ==> opt_opt_spec(
            original,
            text,
        ) == Some(None::<Seq<char>>),
{
}

} // verus!

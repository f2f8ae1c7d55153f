//! What the library reads of an installed web app.

use vstd::prelude::*;

verus! {

/// A shortcut (a manifest "shortcuts" entry).
pub struct Shortcut {
    /// The shortcut's name, ready to be written into a launcher.
    pub name: String,
    /// The shortcut's absolute URL, or `None` when the manifest gives a
    /// relative one.
    pub url: Option<String>,
}

/// The parts of a web app manifest that the library reads.
pub struct SiteManifest {
    /// `name`.
    pub name: Option<String>,
    /// `short_name`.
    pub short_name: Option<String>,
    /// `scope`, when it is an absolute URL (its text).
    pub scope: Option<String>,
    /// `shortcuts`.
    pub shortcuts: Vec<Shortcut>,
}

/// The user's per-app settings.
pub struct SiteConfig {
    /// Custom name, overriding the manifest's.
    pub name: Option<String>,
    /// The manifest URL (its text).
    pub manifest_url: String,
    /// The document URL (its text).
    pub document_url: String,
    /// The Firefox Web Apps (Taskbar Tabs) id, once one is assigned.
    pub webapp_id: Option<String>,
    /// Whether out-of-scope links open in the default browser (unset = on).
    pub external_links: Option<bool>,
    /// Domains kept in-app; empty means the derived default list.
    pub allowed_domains: Vec<String>,
    /// Keep the app entirely off the GPU.
    pub software_rendering: bool,
    /// Force hardware video decoding for calls.
    pub hardware_webrtc: bool,
    /// User-Agent override.
    pub user_agent: Option<String>,
    /// Start the app when the user logs in.
    pub launch_on_login: bool,
    /// When started at login, start hidden in the tray.
    pub start_hidden: bool,
    /// Enabled protocol handlers (scheme names, ready for a launcher).
    pub enabled_protocol_handlers: Vec<String>,
}

/// An installed web app.
pub struct Site {
    /// The app's ULID, in its 26-character text form.
    pub ulid: String,
    /// Per-app settings.
    pub config: SiteConfig,
    /// Manifest data.
    pub manifest: SiteManifest,
    /// The resolved app name.
    pub name: String,
    /// The resolved description.
    pub description: String,
    /// The host of the app's scope.
    pub domain: String,
    /// The resolved start URL (its text).
    pub url: String,
    /// The resolved categories.
    pub categories: Vec<String>,
    /// The resolved keywords.
    pub keywords: Vec<String>,
}

} // verus!

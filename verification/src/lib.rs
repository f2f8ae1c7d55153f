//! Verified core of ffwebapps: the text formats, registries and form logic
//! behind running websites as chromeless desktop apps on Firefox.

pub mod text;
pub mod kwin;
pub mod kwin_laws;
pub mod order;
pub mod urls;
pub mod site;
pub mod taskbar;
pub mod desktop;
pub mod forms;
pub mod live;
pub mod appearance;
pub mod icons;

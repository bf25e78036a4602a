//! A verified model of the web APIs that a small webview runtime exposes
//! to scripts: the element tree with its selectors and mutators, class
//! lists, attributes, inline styles, `document.cookie`, `Storage`,
//! `EventTarget` dispatch planning, `innerHTML` serialisation and
//! `location` navigation intents.

pub mod clone_node;
pub mod cookie;
pub mod document;
pub mod dom;
pub mod element;
pub mod event;
pub mod extract;
pub mod fetch;
pub mod html;
pub mod inner_html;
pub mod inline_style;
pub mod laws;
pub mod location;
pub mod markup;
pub mod query;
pub mod selector;
pub mod selector_laws;
pub mod storage;
pub mod strmap;
pub mod style_laws;
pub mod text;

//! A verified reader for RSX markup (`tag { attr: "value", child { ... } }`): a lexer for
//! literal fragments, a token lexer checked against element and attribute tables, a
//! grammar parser, a normalized-text formatter and a markup renderer; with the small
//! decisions of the command-line tool around it.

pub mod ast;
pub mod bundle;
pub mod cli;
pub mod config;
pub mod format;
pub mod fragment;
pub mod lexer;
pub mod parser;
pub mod plugin;
pub mod render;
pub mod roundtrip;
pub mod schema;
pub mod text;

pub use ast::{AttributeSet, Element, Node, RsxCall, Value, Values};
pub use bundle::PackageType;
pub use cli::{InputSource, Plugin, PluginAction, Render};
pub use config::{
    acquire_dioxus_toml, WebAppConfig, WebConfig, WebDevResourceConfig, WebProxyConfig, WebResourceConfig,
    WebWatcherConfig,
};
pub use fragment::lex_fragments;
pub use lexer::{LexicalError, Lexer, SpannedToken, Token, tokenize};
pub use parser::{ParseError, RsxError, parse_rsx, parse_tokens};
pub use plugin::{CloneRequest, InstallError, PluginManager, PluginStatus, get_plugin_status};
pub use render::rsx_to_html;
pub use schema::{AttributeEntry, ElementEntry, Schema, Scope};

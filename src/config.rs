use vstd::prelude::*;

verus! {

/// Settings of the web platform. Paths are kept as text.
#[derive(Debug, Clone, PartialEq)]
pub struct WebConfig {
    pub app: WebAppConfig,
    pub proxy: Option<Vec<WebProxyConfig>>,
    pub watcher: WebWatcherConfig,
    pub resource: WebResourceConfig,
}

#[derive(Debug, Clone, PartialEq)]
pub struct WebAppConfig {
    pub title: Option<String>,
    pub base_path: Option<String>,
}

#[derive(Debug, Clone, PartialEq)]
pub struct WebProxyConfig {
    pub backend: String,
}

#[derive(Debug, Clone, PartialEq)]
pub struct WebWatcherConfig {
    pub watch_path: Option<Vec<String>>,
    pub reload_html: Option<bool>,
    pub index_on_404: Option<bool>,
}

#[derive(Debug, Clone, PartialEq)]
pub struct WebResourceConfig {
    pub dev: WebDevResourceConfig,
    pub style: Option<Vec<String>>,
    pub script: Option<Vec<String>>,
}

#[derive(Debug, Clone, PartialEq)]
pub struct WebDevResourceConfig {
    pub style: Option<Vec<String>>,
    pub script: Option<Vec<String>>,
}

pub open spec fn is_empty_list(v: Option<Vec<String>>) -> bool {
    v matches Some(l) && l@.len() == 0
}

impl Default for WebConfig {
    /// The web settings of a project without a configuration file: titled
    /// "dioxus | ⛺", no proxies, watching `src`, no resources.
    fn default() -> (r: WebConfig)
        ensures
            r.app.title matches Some(t) && t@ == "dioxus | ⛺"@,
            r.app.base_path is None,
            r.proxy matches Some(p) && p@.len() == 0,
            r.watcher.watch_path matches Some(w) && w@.len() == 1 && w@[0]@ == "src"@,
            r.watcher.reload_html == Some(false),
            r.watcher.index_on_404 == Some(true),
            is_empty_list(r.resource.dev.style),
            is_empty_list(r.resource.dev.script),
            is_empty_list(r.resource.style),
            is_empty_list(r.resource.script),
    {
        let mut watch: Vec<String> = Vec::new();
        watch.push(String::from_str("src"));
        WebConfig {
            app: WebAppConfig { title: Some(String::from_str("dioxus | ⛺")), base_path: None },
            proxy: Some(Vec::new()),
            watcher: WebWatcherConfig { watch_path: Some(watch), reload_html: Some(false), index_on_404: Some(true) },
            resource: WebResourceConfig {
                dev: WebDevResourceConfig { style: Some(Vec::new()), script: Some(Vec::new()) },
                style: Some(Vec::new()),
                script: Some(Vec::new()),
            },
        }
    }
}

/// The configuration file to read in a crate directory, given which of `Dioxus.toml` and
/// `dioxus.toml` are files there. Both spellings are accepted, and the file is then
/// opened as `Dioxus.toml` (on a case-insensitive file system the two are one file).
pub fn acquire_dioxus_toml(upper_is_file: bool, lower_is_file: bool) -> (r: Option<String>)
    ensures
        (upper_is_file || lower_is_file) ==> (r matches Some(name) && name@ == "Dioxus.toml"@),
        !(upper_is_file || lower_is_file) ==> r is None,
{
    if upper_is_file {
        return Some(String::from_str("Dioxus.toml"));
    }
    if lower_is_file {
        return Some(String::from_str("Dioxus.toml"));
    }
    None
}

} // verus!

use dioxus_cli::{
    get_plugin_status, InputSource, InstallError, PackageType, Plugin, PluginAction, PluginManager, PluginStatus,
    Render, WebConfig,
};

#[test]
fn package_type_names() {
    assert_eq!(PackageType::from_str("macos"), Ok(PackageType::MacOsBundle));
    assert_eq!(PackageType::from_str("ios"), Ok(PackageType::IosBundle));
    assert_eq!(PackageType::from_str("msi"), Ok(PackageType::WindowsMsi));
    assert_eq!(PackageType::from_str("deb"), Ok(PackageType::Deb));
    assert_eq!(PackageType::from_str("rpm"), Ok(PackageType::Rpm));
    assert_eq!(PackageType::from_str("appimage"), Ok(PackageType::AppImage));
    assert_eq!(PackageType::from_str("dmg"), Ok(PackageType::Dmg));
    assert_eq!(PackageType::from_str("zip"), Err("zip is not a valid package type".to_string()));
    assert_eq!(PackageType::from_str("updater"), Err("updater is not a valid package type".to_string()));
}

fn status(version: &str, t: i64) -> PluginStatus {
    PluginStatus { version: version.to_string(), startup_timestamp: t }
}

#[test]
fn plugin_status_lookup() {
    let statuses = vec![
        ("fmt".to_string(), status("0.1.0", 10)),
        ("lint".to_string(), status("1.2.0", 20)),
        ("fmt".to_string(), status("9.9.9", 30)),
    ];
    assert_eq!(get_plugin_status(&statuses, "lint"), Some(status("1.2.0", 20)));
    assert_eq!(get_plugin_status(&statuses, "fmt"), Some(status("0.1.0", 10)));
    assert_eq!(get_plugin_status(&statuses, "none"), None);
    assert_eq!(get_plugin_status(&vec![], "fmt"), None);
}

#[test]
fn plugin_repo_names() {
    assert_eq!(PluginManager::plugin_repo_name("https://github.com/user/plugin-x"), "plugin-x");
    assert_eq!(PluginManager::plugin_repo_name("plain"), "plain");
    assert_eq!(PluginManager::plugin_repo_name("a/b/"), "");
}

#[test]
fn remote_install_decision() {
    let r = PluginManager::remote_install_plugin("https://host/u/repo", "main", false).unwrap();
    assert_eq!(r.url, "https://host/u/repo");
    assert_eq!(r.branch, "main");
    assert_eq!(r.dir_name, "repo");
    let e = PluginManager::remote_install_plugin("https://host/u/repo", "main", true).unwrap_err();
    assert_eq!(e, InstallError::PluginDirectoryExists);
    assert_eq!(e.message(), "Plugin directory exist.");
}

#[test]
fn web_config_defaults() {
    let c = WebConfig::default();
    assert_eq!(c.app.title, Some("dioxus | ⛺".to_string()));
    assert_eq!(c.app.base_path, None);
    assert_eq!(c.proxy, Some(vec![]));
    assert_eq!(c.watcher.watch_path, Some(vec!["src".to_string()]));
    assert_eq!(c.watcher.reload_html, Some(false));
    assert_eq!(c.watcher.index_on_404, Some(true));
    assert_eq!(c.resource.style, Some(vec![]));
    assert_eq!(c.resource.script, Some(vec![]));
    assert_eq!(c.resource.dev.style, Some(vec![]));
    assert_eq!(c.resource.dev.script, Some(vec![]));
}

#[test]
fn render_input_precedence() {
    let all = Render { file: Some("in.rsx".to_string()), output: None, source: Some("rsx!{}".to_string()) };
    assert_eq!(all.input_source(), InputSource::Inline("rsx!{}".to_string()));
    let file = Render { file: Some("in.rsx".to_string()), output: Some("out.html".to_string()), source: None };
    assert_eq!(file.input_source(), InputSource::File("in.rsx".to_string()));
    let none = Render { file: None, output: None, source: None };
    assert_eq!(none.input_source(), InputSource::Stdin);
}

#[test]
fn plugin_command_actions() {
    assert_eq!(Plugin::List.action(), PluginAction::PrintList);
    assert_eq!(Plugin::AppPath.action(), PluginAction::PrintAppPath);
    assert_eq!(
        Plugin::Add { git: String::new(), branch: "main".to_string() }.action(),
        PluginAction::ShowAddUsage
    );
    assert_eq!(
        Plugin::Add { git: "https://h/u/p".to_string(), branch: "dev".to_string() }.action(),
        PluginAction::Install { git: "https://h/u/p".to_string(), branch: "dev".to_string() }
    );
    assert_eq!(Plugin::Create { vscode: true }.action(), PluginAction::CreateDevPlugin { vscode: true });
}

#[test]
fn config_file_choice() {
    assert_eq!(dioxus_cli::acquire_dioxus_toml(true, false), Some("Dioxus.toml".to_string()));
    assert_eq!(dioxus_cli::acquire_dioxus_toml(false, true), Some("Dioxus.toml".to_string()));
    assert_eq!(dioxus_cli::acquire_dioxus_toml(true, true), Some("Dioxus.toml".to_string()));
    assert_eq!(dioxus_cli::acquire_dioxus_toml(false, false), None);
}

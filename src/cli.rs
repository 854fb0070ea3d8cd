use vstd::prelude::*;

verus! {

/// Options of the `render` command.
#[derive(Debug, Clone, PartialEq)]
pub struct Render {
    /// Input file.
    pub file: Option<String>,
    /// Output file; standard output where absent.
    pub output: Option<String>,
    /// Markup source given inline.
    pub source: Option<String>,
}

/// Where the `render` command reads its markup from.
#[derive(Debug, Clone, PartialEq)]
pub enum InputSource {
    Inline(String),
    File(String),
    Stdin,
}

impl Render {
    /// The input to read: inline source first, else the input file, else standard input.
    pub fn input_source(&self) -> (r: InputSource)
        ensures
            match self.source {
                Some(s) => r matches InputSource::Inline(t) && t@ == s@,
                None => match self.file {
                    Some(f) => r matches InputSource::File(g) && g@ == f@,
                    None => r == InputSource::Stdin,
                },
            },
    {
        match &self.source {
            Some(s) => InputSource::Inline(s.clone()),
            None => match &self.file {
                Some(f) => InputSource::File(f.clone()),
                None => InputSource::Stdin,
            },
        }
    }
}

/// The `plugin` subcommands.
#[derive(Debug, Clone, PartialEq)]
pub enum Plugin {
    /// Print all installed plugins.
    List,
    /// Print the plugin storage path.
    AppPath,
    /// Install a plugin from a git repository.
    Add { git: String, branch: String },
    /// Create a new plugin from the development template.
    Create { vscode: bool },
}

/// What a `plugin` subcommand asks the caller to do.
#[derive(Debug, Clone, PartialEq)]
pub enum PluginAction {
    PrintList,
    PrintAppPath,
    /// Explain how to name the repository to install.
    ShowAddUsage,
    Install { git: String, branch: String },
    CreateDevPlugin { vscode: bool },
}

impl Plugin {
    /// The action a subcommand calls for: an install needs a repository address.
    pub fn action(&self) -> (r: PluginAction)
        ensures
            match self {
                Plugin::List => r == PluginAction::PrintList,
                Plugin::AppPath => r == PluginAction::PrintAppPath,
                Plugin::Add { git, branch } => if git@.len() == 0 {
                    r == PluginAction::ShowAddUsage
                } else {
                    r matches PluginAction::Install { git: g, branch: b } && g@ == git@ && b@ == branch@
                },
                Plugin::Create { vscode } => r == PluginAction::CreateDevPlugin { vscode: *vscode },
            },
    {
        match self {
            Plugin::List => PluginAction::PrintList,
            Plugin::AppPath => PluginAction::PrintAppPath,
            Plugin::Add { git, branch } => {
                if git.as_str().unicode_len() == 0 {
                    PluginAction::ShowAddUsage
                } else {
                    PluginAction::Install { git: git.clone(), branch: branch.clone() }
                }
            },
            Plugin::Create { vscode } => PluginAction::CreateDevPlugin { vscode: *vscode },
        }
    }
}

} // verus!

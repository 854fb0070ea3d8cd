use vstd::prelude::*;

verus! {

/// What the plugin lock file records of an installed plugin.
#[derive(Debug, Clone, PartialEq)]
pub struct PluginStatus {
    pub version: String,
    pub startup_timestamp: i64,
}

/// The index of the first entry recorded under `name`, if any.
pub open spec fn status_index(statuses: Seq<(String, PluginStatus)>, name: Seq<char>) -> Option<int> {
    if exists|i: int| 0 <= i < statuses.len() && (#[trigger] statuses[i]).0@ == name {
        Some(choose|i: int| 0 <= i < statuses.len() && statuses[i].0@ == name
            && forall|j: int| 0 <= j < i ==> (#[trigger] statuses[j]).0@ != name)
    } else {
        None
    }
}

/// The status recorded for plugin `name` among the lock file's entries.
pub fn get_plugin_status(statuses: &Vec<(String, PluginStatus)>, name: &str) -> (r: Option<PluginStatus>)
    ensures
        match status_index(statuses@, name@) {
            Some(i) => r matches Some(st) && st.version@ == statuses@[i].1.version@
                && st.startup_timestamp == statuses@[i].1.startup_timestamp,
            None => r is None,
        },
{
    let key = String::from_str(name);
    let mut i: usize = 0;
    while i < statuses.len()
        invariant
            key@ == name@,
            i <= statuses@.len(),
            forall|j: int| 0 <= j < i ==> (#[trigger] statuses@[j]).0@ != name@,
        decreases statuses@.len() - i,
    {
        if statuses[i].0 == key {
            let ghost k = i as int;
            assert(statuses@[k].0@ == name@);
            assert forall|c: int| 0 <= c < statuses@.len() && statuses@[c].0@ == name@
                && (forall|j: int| 0 <= j < c ==> (#[trigger] statuses@[j]).0@ != name@)
                implies c == k by {
                if c > k {
                    assert(statuses@[k].0@ != name@);
                }
            };
            let st = &statuses[i].1;
            return Some(PluginStatus { version: st.version.clone(), startup_timestamp: st.startup_timestamp });
        }
        i = i + 1;
    }
    None
}

/// The directory name a plugin repository is cloned into: what follows the last `/`
/// of its address.
pub open spec fn repo_name(url: Seq<char>) -> Seq<char> {
    if exists|i: int| 0 <= i < url.len() && url[i] == '/' {
        let k = choose|i: int| 0 <= i < url.len() && url[i] == '/'
            && forall|j: int| i < j < url.len() ==> url[j] != '/';
        url.subrange(k + 1, url.len() as int)
    } else {
        url
    }
}

/// A clone that the caller is to run: `git clone --branch <branch> <url> <dir_name>`
/// inside the plugin directory.
#[derive(Debug, Clone, PartialEq)]
pub struct CloneRequest {
    pub url: String,
    pub branch: String,
    pub dir_name: String,
}

#[derive(Debug, Clone, PartialEq)]
pub enum InstallError {
    /// The plugin directory already holds a directory of that name.
    PluginDirectoryExists,
}

impl InstallError {
    pub fn message(&self) -> (r: String)
        ensures
            r@ == "Plugin directory exist."@,
    {
        String::from_str("Plugin directory exist.")
    }
}

pub struct PluginManager;

impl PluginManager {
    /// The directory name for the repository at `url` (see `repo_name`).
    pub fn plugin_repo_name(url: &str) -> (r: String)
        ensures
            r@ == repo_name(url@),
    {
        let cs = crate::text::chars_of(url);
        let n = cs.len();
        let mut i = n;
        while i > 0
            invariant
                cs@ == url@,
                n == url@.len(),
                i <= n,
                forall|j: int| i <= j < n ==> url@[j] != '/',
            decreases i,
        {
            if cs[i - 1] == '/' {
                let ghost k = i - 1;
                assert forall|c: int| 0 <= c < n && url@[c] == '/' && (forall|j: int| c < j < n ==> url@[j] != '/')
                    implies c == k by {
                    if c < k {
                        assert(url@[k] == '/');
                    }
                };
                return crate::text::slice_string(url, i, n);
            }
            i = i - 1;
        }
        assert(url@.subrange(0, n as int) == url@);
        crate::text::slice_string(url, 0, n)
    }

    /// Decides a remote install: the clone to run into the plugin directory, or an
    /// error where a directory of the repository's name is already there.
    /// `target_exists` says whether `<plugin dir>/<plugin_repo_name(url)>` is a directory.
    pub fn remote_install_plugin(url: &str, branch: &str, target_exists: bool) -> (r: Result<CloneRequest, InstallError>)
        ensures
            target_exists ==> r == Err::<CloneRequest, InstallError>(InstallError::PluginDirectoryExists),
            !target_exists ==> (r matches Ok(c) && c.url@ == url@ && c.branch@ == branch@
                && c.dir_name@ == repo_name(url@)),
    {
        if target_exists {
            return Err(InstallError::PluginDirectoryExists);
        }
        Ok(CloneRequest {
            url: String::from_str(url),
            branch: String::from_str(branch),
            dir_name: Self::plugin_repo_name(url),
        })
    }
}

} // verus!

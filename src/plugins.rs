//! The plugin registry and the decisions of plugin installation: where a
//! plugin's source is fetched from, whether its manifest fits, and what its
//! library file is called.

use vstd::prelude::*;
use vstd::string::*;
use crate::executor::RunError;
use crate::placeholders::{occurs_in_at, same_text};
use crate::versions::{VersionError, requirement_parses, satisfies, semver_matches, version_parses};

verus! {

/// A plugin known to the registry.
pub struct Plugin {
    pub name: String,
    /// A local path or a git URL.
    pub source: String,
    /// The version requirement the plugin was registered with.
    pub version: Option<String>,
    /// Where the built library is installed.
    pub install_path: String,
    /// Where the source is built.
    pub build_path: String,
}

impl Plugin {
    pub open spec fn spec_install_path(&self) -> Seq<char> {
        self.install_path@
    }

    pub open spec fn spec_build_path(&self) -> Seq<char> {
        self.build_path@
    }

    /// A plugin without version requirement, install path or build path.
    pub fn new(name: String, source: String) -> (r: Plugin)
        ensures
            r.name == name,
            r.source == source,
            r.version is None,
            r.spec_install_path().len() == 0,
            r.spec_build_path().len() == 0,
    {
        Plugin { name, source, version: None, install_path: String::new(), build_path: String::new() }
    }

    pub fn set_version(&mut self, version: String)
        ensures
            final(self).version == Some(version),
            final(self).name == old(self).name,
            final(self).source == old(self).source,
            final(self).spec_install_path() == old(self).spec_install_path(),
            final(self).spec_build_path() == old(self).spec_build_path(),
    {
        self.version = Some(version);
    }

    pub fn get_install_path(&self) -> (r: &String)
        ensures
            r@ == self.spec_install_path(),
    {
        &self.install_path
    }

    pub fn set_install_path(&mut self, install_path: String)
        ensures
            final(self).spec_install_path() == install_path@,
            final(self).name == old(self).name,
            final(self).source == old(self).source,
            final(self).version == old(self).version,
            final(self).spec_build_path() == old(self).spec_build_path(),
    {
        self.install_path = install_path;
    }

    pub fn set_build_path(&mut self, build_path: String)
        ensures
            final(self).spec_build_path() == build_path@,
            final(self).name == old(self).name,
            final(self).source == old(self).source,
            final(self).version == old(self).version,
            final(self).spec_install_path() == old(self).spec_install_path(),
    {
        self.build_path = build_path;
    }
}

/// What a plugin's source ships as `plugin.toml`.
pub struct PluginManifest {
    pub name: String,
    /// The plugin's own version.
    pub version: String,
    /// The requirement the plugin puts on the engine version.
    pub runner_version: String,
    /// The shell command that builds the plugin.
    pub build: String,
    /// Directory, relative to the source, that receives the library.
    pub output_dir: String,
}

/// The registry of installed plugins under a plugin directory.
pub struct PluginManager {
    pub plugins: Vec<Plugin>,
    pub plugin_dir: String,
}

pub open spec fn has_plugin(plugins: Seq<Plugin>, name: Seq<char>) -> bool {
    exists|i: int| 0 <= i < plugins.len() && plugins[i].name@ == name
}

/// The version requirement a new plugin is registered with when none is
/// given.
pub open spec fn default_requirement() -> Seq<char> {
    seq!['0', '.', '1', '.', '0']
}

impl PluginManager {
    pub fn new(plugin_dir: String) -> (r: PluginManager)
        ensures
            r.plugins@.len() == 0,
            r.plugin_dir == plugin_dir,
    {
        PluginManager { plugins: Vec::new(), plugin_dir }
    }

    pub fn add_plugin(&mut self, plugin: Plugin)
        ensures
            final(self).plugins@ == old(self).plugins@.push(plugin),
            final(self).plugin_dir == old(self).plugin_dir,
    {
        self.plugins.push(plugin);
    }

    /// The first plugin called `name`.
    pub fn get_plugin(&self, name: &str) -> (r: Option<&Plugin>)
        ensures
            r is Some <==> has_plugin(self.plugins@, name@),
            r matches Some(p) ==> p.name@ == name@ && exists|i: int|
                0 <= i < self.plugins@.len() && self.plugins@[i] == *p,
    {
        let mut i: usize = 0;
        while i < self.plugins.len()
            invariant
                0 <= i <= self.plugins@.len(),
                forall|k: int| 0 <= k < i ==> self.plugins@[k].name@ != name@,
            decreases self.plugins@.len() - i,
        {
            if same_text(self.plugins[i].name.as_str(), name) {
                return Some(&self.plugins[i]);
            }
            i += 1;
        }
        None
    }

    /// Registers plugin `name` from `source` unless a plugin of that name is
    /// registered already, with requirement `version`, or `0.1.0` when none
    /// is given. Says whether a record was added.
    pub fn register(&mut self, name: String, source: String, version: Option<String>) -> (added: bool)
        ensures
            added == !has_plugin(old(self).plugins@, name@),
            final(self).plugin_dir == old(self).plugin_dir,
            !added ==> final(self).plugins@ == old(self).plugins@,
            added ==> final(self).plugins@.len() == old(self).plugins@.len() + 1 && final(self).plugins@.drop_last()
                == old(self).plugins@ && ({
                let p = final(self).plugins@.last();
                &&& p.name == name
                &&& p.source == source
                &&& p.version matches Some(v) && v@ == (match version {
                    Some(w) => w@,
                    None => default_requirement(),
                })
            }),
    {
        if self.get_plugin(name.as_str()).is_some() {
            return false;
        }
        let mut plugin = Plugin::new(name, source);
        let v = match version {
            Some(w) => w,
            None => {
                proof {
                    reveal_strlit("0.1.0");
                    assert("0.1.0"@ =~= default_requirement());
                }
                String::from_str("0.1.0")
            },
        };
        plugin.set_version(v);
        let ghost before = self.plugins@;
        self.add_plugin(plugin);
        proof {
            assert(self.plugins@.drop_last() =~= before);
        }
        true
    }
}

pub open spec fn starts_with(s: Seq<char>, p: Seq<char>) -> bool {
    p.len() <= s.len() && s.subrange(0, p.len() as int) == p
}

pub open spec fn ends_with(s: Seq<char>, p: Seq<char>) -> bool {
    p.len() <= s.len() && s.subrange(s.len() - p.len(), s.len() as int) == p
}

pub open spec fn count_char(s: Seq<char>, c: char) -> nat
    decreases s.len(),
{
    if s.len() == 0 {
        0
    } else {
        count_char(s.drop_last(), c) + if s.last() == c { 1nat } else { 0nat }
    }
}

/// A source that names a git repository outright.
pub open spec fn is_git_url(s: Seq<char>) -> bool {
    starts_with(s, seq!['h', 't', 't', 'p', ':', '/', '/']) || starts_with(
        s,
        seq!['h', 't', 't', 'p', 's', ':', '/', '/'],
    ) || ends_with(s, seq!['.', 'g', 'i', 't'])
}

pub open spec fn github_prefix() -> Seq<char> {
    seq!['h', 't', 't', 'p', 's', ':', '/', '/', 'g', 'i', 't', 'h', 'u', 'b', '.', 'c', 'o', 'm', '/']
}

/// Where a plugin's source is fetched from.
pub enum SourceKind {
    /// A git repository at this URL.
    Git(String),
    /// A local directory at this path.
    Local(String),
}

/// Where `source` is fetched from. A git URL (starting with `http://` or
/// `https://`, or ending in `.git`) is cloned as it is; an `OWNER/REPO`
/// pair (exactly one `/`) that is no local path (`exists_locally` false)
/// is cloned from GitHub; anything else is a local path.
pub fn classify_source(source: &str, exists_locally: bool) -> (r: SourceKind)
    ensures
        is_git_url(source@) ==> (r matches SourceKind::Git(u) && u@ == source@),
        !is_git_url(source@) && count_char(source@, '/') == 1 && !exists_locally ==> (r matches SourceKind::Git(u)
            && u@ == github_prefix() + source@),
        !is_git_url(source@) && (count_char(source@, '/') != 1 || exists_locally) ==> (r matches SourceKind::Local(p)
            && p@ == source@),
{
    proof {
        reveal_strlit("http://");
        reveal_strlit("https://");
        reveal_strlit(".git");
        reveal_strlit("https://github.com/");
        assert("http://"@ =~= seq!['h', 't', 't', 'p', ':', '/', '/']);
        assert("https://"@ =~= seq!['h', 't', 't', 'p', 's', ':', '/', '/']);
        assert(".git"@ =~= seq!['.', 'g', 'i', 't']);
        assert("https://github.com/"@ =~= github_prefix());
    }
    let n = source.unicode_len();
    let git = occurs_in_at(source, "http://", 0) || occurs_in_at(source, "https://", 0) || (n >= 4 && occurs_in_at(
        source,
        ".git",
        n - 4,
    ));
    proof {
        if n >= 4 {
            assert(occurs_in_at_spec_ends(source@));
        }
    }
    if git {
        return SourceKind::Git(String::from_str(source));
    }
    let mut slashes: usize = 0;
    let mut i: usize = 0;
    while i < n
        invariant
            n == source@.len(),
            0 <= i <= n,
            slashes == count_char(source@.subrange(0, i as int), '/'),
            slashes <= i,
        decreases n - i,
    {
        proof {
            assert(source@.subrange(0, i + 1).drop_last() =~= source@.subrange(0, i as int));
        }
        if source.get_char(i) == '/' {
            slashes += 1;
        }
        i += 1;
    }
    proof {
        assert(source@.subrange(0, n as int) =~= source@);
    }
    if slashes == 1 && !exists_locally {
        let mut url = String::from_str("https://github.com/");
        url.append(source);
        SourceKind::Git(url)
    } else {
        SourceKind::Local(String::from_str(source))
    }
}

spec fn occurs_in_at_spec_ends(s: Seq<char>) -> bool {
    s.len() >= 4 ==> (crate::placeholders::occurs_at(s, seq!['.', 'g', 'i', 't'], s.len() - 4) <==> ends_with(
        s,
        seq!['.', 'g', 'i', 't'],
    ))
}

/// The file name of plugin `name`'s library on a platform whose libraries
/// are named `prefix` + name + `suffix`.
pub fn library_file_name(prefix: &str, name: &str, suffix: &str) -> (r: String)
    ensures
        r@ == prefix@ + name@ + suffix@,
{
    let mut r = String::from_str(prefix);
    r.append(name);
    r.append(suffix);
    r
}

/// The verdict on a manifest given whether its name matches and the
/// outcomes of the two version checks: the plugin's version against the
/// requested requirement, then the engine against the plugin's requirement.
pub fn manifest_verdict(
    name_matches: bool,
    plugin_version: Result<bool, VersionError>,
    engine_version: Result<bool, VersionError>,
) -> (r: Result<(), RunError>)
    ensures
        !name_matches ==> r == Err::<(), RunError>(RunError::PluginManifestInvalid),
        name_matches && plugin_version is Err ==> r == Err::<(), RunError>(RunError::PluginManifestInvalid),
        name_matches && plugin_version == Ok::<bool, VersionError>(false) ==> r == Err::<(), RunError>(
            RunError::VersionMismatch,
        ),
        name_matches && plugin_version == Ok::<bool, VersionError>(true) && engine_version is Err ==> r == Err::<
            (),
            RunError,
        >(RunError::PluginManifestInvalid),
        name_matches && plugin_version == Ok::<bool, VersionError>(true) && engine_version == Ok::<bool, VersionError>(
            false,
        ) ==> r == Err::<(), RunError>(RunError::VersionMismatch),
        r is Ok <==> name_matches && plugin_version == Ok::<bool, VersionError>(true) && engine_version == Ok::<
            bool,
            VersionError,
        >(true),
        r matches Err(e) ==> e == RunError::PluginManifestInvalid || e == RunError::VersionMismatch,
{
    if !name_matches {
        return Err(RunError::PluginManifestInvalid);
    }
    match plugin_version {
        Err(_) => Err(RunError::PluginManifestInvalid),
        Ok(false) => Err(RunError::VersionMismatch),
        Ok(true) => match engine_version {
            Err(_) => Err(RunError::PluginManifestInvalid),
            Ok(false) => Err(RunError::VersionMismatch),
            Ok(true) => Ok(()),
        },
    }
}

/// The manifest of plugin `name` is well formed for the request: the names
/// agree and the four version texts parse.
pub open spec fn manifest_parses(name: Seq<char>, requested: Seq<char>, manifest: PluginManifest, engine: Seq<char>) -> bool {
    manifest.name@ == name && requirement_parses(requested) && version_parses(manifest.version@) && requirement_parses(
        manifest.runner_version@,
    ) && version_parses(engine)
}

/// Checks the manifest of plugin `name`, requested with requirement
/// `requested`, on an engine of version `engine`: the names must agree, the
/// plugin's version must satisfy `requested`, and the engine the plugin's
/// requirement. Checked in that order: a name mismatch or a text that does
/// not parse makes the manifest invalid, an unmet requirement is a version
/// mismatch.
pub fn validate_manifest(name: &str, requested: &str, manifest: &PluginManifest, engine: &str) -> (r: Result<
    (),
    RunError,
>)
    ensures
        r is Ok <==> manifest_parses(name@, requested@, *manifest, engine@) && semver_matches(
            requested@,
            manifest.version@,
        ) && semver_matches(manifest.runner_version@, engine@),
        manifest.name@ != name@ ==> r == Err::<(), RunError>(RunError::PluginManifestInvalid),
        manifest.name@ == name@ && (!requirement_parses(requested@) || !version_parses(manifest.version@)) ==> r
            == Err::<(), RunError>(RunError::PluginManifestInvalid),
        manifest.name@ == name@ && requirement_parses(requested@) && version_parses(manifest.version@)
            && !semver_matches(requested@, manifest.version@) ==> r == Err::<(), RunError>(RunError::VersionMismatch),
        manifest.name@ == name@ && requirement_parses(requested@) && version_parses(manifest.version@) && semver_matches(
            requested@,
            manifest.version@,
        ) && (!requirement_parses(manifest.runner_version@) || !version_parses(engine@)) ==> r == Err::<(), RunError>(
            RunError::PluginManifestInvalid,
        ),
        manifest_parses(name@, requested@, *manifest, engine@) && semver_matches(requested@, manifest.version@)
            && !semver_matches(manifest.runner_version@, engine@) ==> r == Err::<(), RunError>(RunError::VersionMismatch),
{
    let name_matches = same_text(manifest.name.as_str(), name);
    let plugin_version = satisfies(requested, manifest.version.as_str());
    let engine_version = satisfies(manifest.runner_version.as_str(), engine);
    manifest_verdict(name_matches, plugin_version, engine_version)
}

} // verus!

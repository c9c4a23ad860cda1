//! Resolve the cargo target directory and the manifest path for the project
//! the user is currently sitting in.
//!
//! Resolution order for target dir:
//!   1. explicit `--target-dir` flag
//!   2. `$CARGO_TARGET_DIR` env var
//!   3. `[build] target-dir = "..."` in the nearest `.cargo/config.toml`
//!      (walking up from the manifest dir)
//!   4. `<manifest_dir>/target`

use vstd::prelude::*;

use crate::order::{self, rank, Ranking};
use crate::text::{self, chars_of, same_text, text_not_after};

verus! {

broadcast use vstd::seq::group_seq_axioms;

/// An entry of a target dir.
#[derive(Debug)]
pub struct TargetEntry {
    pub name: String,
    pub is_dir: bool,
    /// Whether the entry has a `.fingerprint/` subdir, as every profile dir has.
    pub has_fingerprint: bool,
}

/// Whether a dir in the target dir may be a profile by its name: cargo-internal
/// and other non-profile dirs are not.
pub open spec fn is_profile_name(name: Seq<char>) -> bool {
    &&& !(name.len() > 0 && name[0] == '.')
    &&& name != "doc"@
    &&& name != "package"@
    &&& name != "tmp"@
}

/// Whether an entry of a target dir is a profile dir.
pub open spec fn is_profile(entry: TargetEntry) -> bool {
    entry.is_dir && is_profile_name(entry.name@) && entry.has_fingerprint
}

/// Whether an entry of a target dir is a profile dir.
pub fn looks_like_profile(entry: &TargetEntry) -> (r: bool)
    ensures
        r == is_profile(*entry),
{
    if !entry.is_dir || !entry.has_fingerprint {
        return false;
    }
    let name = entry.name.as_str();
    let v = chars_of(name);
    !(v.len() > 0 && v[0] == '.') && !same_text(name, "doc") && !same_text(name, "package")
        && !same_text(name, "tmp")
}

/// Whether the entry `a` stands no later than the entry `b` in the order of their
/// names; entries of one name are told apart by their places.
pub open spec fn named_no_later(entries: Seq<TargetEntry>, a: usize, b: usize) -> bool {
    let x = entries[a as int].name@;
    let y = entries[b as int].name@;
    if x == y {
        a <= b
    } else {
        text::text_le(x, y)
    }
}

/// The places of the profile dirs, in the order of their names.
pub open spec fn profiles_by_name(entries: Seq<TargetEntry>) -> Seq<usize> {
    order::picks(entries.len(), |i: int| is_profile(entries[i])).sort_by(
        |a: usize, b: usize| named_no_later(entries, a, b),
    )
}

/// The order of entries by name compares any two, tells them apart, and is
/// transitive.
proof fn lemma_named(entries: Seq<TargetEntry>, a: usize, b: usize, c: usize)
    ensures
        named_no_later(entries, a, b) || named_no_later(entries, b, a),
        named_no_later(entries, a, b) && named_no_later(entries, b, a) ==> a == b,
        named_no_later(entries, a, b) && named_no_later(entries, b, c) ==> named_no_later(
            entries,
            a,
            c,
        ),
{
    let x = entries[a as int].name@;
    let y = entries[b as int].name@;
    let z = entries[c as int].name@;
    text::text_order(x, y, z);
    text::text_order(y, z, x);
}

/// The order of entries by name is total.
pub proof fn lemma_total(entries: Seq<TargetEntry>)
    ensures
        vstd::relations::total_ordering(|a: usize, b: usize| named_no_later(entries, a, b)),
{
    let le = |a: usize, b: usize| named_no_later(entries, a, b);
    assert forall|a: usize, b: usize| #[trigger] le(a, b) || #[trigger] le(b, a) by {
        lemma_named(entries, a, b, b);
    }
    assert forall|a: usize, b: usize| #[trigger] le(a, b) && #[trigger] le(b, a) implies a == b by {
        lemma_named(entries, a, b, b);
    }
    assert forall|a: usize, b: usize, c: usize| #[trigger] le(a, b) && #[trigger] le(b, c)
        implies le(a, c) by {
        lemma_named(entries, a, b, c);
    }
}

/// The order of entries by name.
struct ByName<'a> {
    entries: &'a Vec<TargetEntry>,
}

impl<'a> Ranking for ByName<'a> {
    closed spec fn covers(&self, i: usize) -> bool {
        i < self.entries@.len()
    }

    closed spec fn not_after(&self, a: usize, b: usize) -> bool {
        named_no_later(self.entries@, a, b)
    }

    proof fn is_total(&self) {
        lemma_total(self.entries@);
        assert((|a: usize, b: usize| self.not_after(a, b)) =~= (|a: usize, b: usize|
            named_no_later(self.entries@, a, b)));
    }

    fn ranks(&self, a: usize, b: usize) -> (r: bool) {
        let x = &self.entries[a].name;
        let y = &self.entries[b].name;
        if *x == *y {
            a <= b
        } else {
            text_not_after(&chars_of(x.as_str()), &chars_of(y.as_str()))
        }
    }
}

/// The names of the profile dirs inside a target dir — the entries that look
/// like cargo profile dirs (have a `.fingerprint/` subdir), in order.
pub fn list_profile_dirs(entries: &Vec<TargetEntry>) -> (r: Vec<String>)
    ensures
        r@.map_values(|name: String| name@) == profiles_by_name(entries@).map_values(
            |i: usize| entries@[i as int].name@,
        ),
{
    let ghost profile = |i: int| is_profile(entries@[i]);
    let ghost name_of = |i: usize| entries@[i as int].name@;
    let ghost text_of = |name: String| name@;
    let mut found: Vec<usize> = Vec::new();
    let mut i: usize = 0;
    while i < entries.len()
        invariant
            i <= entries.len(),
            profile == (|i: int| is_profile(entries@[i])),
            found@ == order::picks(i as nat, profile),
        decreases entries.len() - i,
    {
        if looks_like_profile(&entries[i]) {
            found.push(i);
        }
        i = i + 1;
    }
    let by_name = ByName { entries };
    proof {
        order::lemma_picks(entries@.len(), profile);
    }
    let sorted = rank(&found, &by_name);
    proof {
        let f = |a: usize, b: usize| by_name.not_after(a, b);
        let g = |a: usize, b: usize| named_no_later(entries@, a, b);
        assert(f =~= g);
        by_name.is_total();
        order::lemma_sorted(found@, g);
        assert forall|k: int| 0 <= k < sorted@.len() implies #[trigger] sorted@[k]
            < entries@.len() by {
            assert(sorted@.contains(sorted@[k]));
        }
    }
    let mut out: Vec<String> = Vec::new();
    let mut k: usize = 0;
    while k < sorted.len()
        invariant
            k <= sorted.len(),
            name_of == (|i: usize| entries@[i as int].name@),
            text_of == (|name: String| name@),
            forall|k: int| 0 <= k < sorted@.len() ==> #[trigger] sorted@[k] < entries@.len(),
            out@.map_values(text_of) == sorted@.take(k as int).map_values(name_of),
        decreases sorted.len() - k,
    {
        let ghost before = out@;
        out.push(entries[sorted[k]].name.clone());
        proof {
            assert(out@.map_values(text_of) =~= before.map_values(text_of).push(out@.last()@));
            assert(sorted@.take(k + 1).map_values(name_of) =~= sorted@.take(k as int).map_values(
                name_of,
            ).push(name_of(sorted@[k as int])));
        }
        k = k + 1;
    }
    assert(sorted@.take(sorted@.len() as int) =~= sorted@);
    out
}

/// `std::path::PathBuf`, a path of the operating system. It is carried through as
/// it is.
#[verifier::external_type_specification]
#[verifier::external_body]
pub struct ExPathBuf(std::path::PathBuf);

/// `Clone` of `std::path::PathBuf` gives the same path once more.
pub assume_specification[ <std::path::PathBuf as Clone>::clone ](
    path: &std::path::PathBuf,
) -> (r: std::path::PathBuf)
    ensures
        r == *path,
;

/// `toml::de::Error`, which says what is wrong with a file.
#[verifier::external_type_specification]
#[verifier::external_body]
pub struct ExTomlError(toml::de::Error);

/// The string under `key` in the table `table` of a TOML document: `None` if
/// `text` is no TOML, `Some(None)` if there is no such string.
pub uninterp spec fn toml_string(
    text: Seq<char>,
    table: Seq<char>,
    key: Seq<char>,
) -> Option<Option<Seq<char>>>;

/// Parses `contents` with `toml::from_str`, and looks up `key` in the table
/// `table` with `toml::Value::get` and `toml::Value::as_str`. Claims that what
/// comes out depends on the arguments alone. What is TOML, and where in it the
/// string stands, is left to the `toml` crate, and so is what the error says.
#[verifier::external_body]
fn lookup(contents: &str, table: &str, key: &str) -> (r: Result<Option<String>, toml::de::Error>)
    ensures
        match r {
            Ok(Some(s)) => toml_string(contents@, table@, key@) == Some(Some(s@)),
            Ok(None) => toml_string(contents@, table@, key@) == Some(None::<Seq<char>>),
            Err(_) => toml_string(contents@, table@, key@) is None,
        },
{
    let parsed: toml::Value = toml::from_str(contents)?;
    let value = parsed.get(table).and_then(|t| t.get(key));
    Ok(value.and_then(|v| v.as_str()).map(|s| s.to_string()))
}

/// A place where cargo looks for its configuration.
#[derive(Debug)]
pub enum ConfigFile {
    /// There is no such file.
    Missing,
    /// There is a file that could not be read.
    Unreadable,
    /// What the file holds.
    Contents(String),
}

/// The config files of one dir above a manifest.
#[derive(Debug)]
pub struct ConfigDir {
    /// `.cargo/config.toml`
    pub config_toml: ConfigFile,
    /// `.cargo/config`, the old name of the file.
    pub config: ConfigFile,
}

/// One of the config files of a dir.
#[derive(Clone, Copy, Debug, PartialEq, Eq, Structural)]
pub enum ConfigName {
    /// `.cargo/config.toml`
    ConfigToml,
    /// `.cargo/config`
    Config,
}

/// A config file: one of those of the dir at the place `dir`.
#[derive(Clone, Copy, Debug, PartialEq, Eq, Structural)]
pub struct ConfigPlace {
    pub dir: usize,
    pub name: ConfigName,
}

/// Why the configuration does not say where the target dir is.
#[derive(Debug)]
pub enum ConfigError {
    /// The file could not be read.
    Reading(ConfigPlace),
    /// The file is no TOML.
    Parsing(ConfigPlace, toml::de::Error),
}

/// What the configuration says of the target dir.
#[verifier::ext_equal]
pub enum Configured {
    /// Nothing.
    Nowhere,
    /// The target dir is given.
    At(Seq<char>),
    /// The file at this place could not be read.
    Unread(ConfigPlace),
    /// The file at this place is no TOML.
    Malformed(ConfigPlace),
}

/// What one config file says of the target dir.
#[derive(Debug)]
pub enum Setting {
    /// Nothing, or there is no such file.
    Absent,
    /// Where the target dir is.
    Dir(String),
    /// The file could not be read.
    Unreadable,
    /// The file is no TOML.
    Malformed(toml::de::Error),
}

/// What a `Setting` stands for.
#[verifier::ext_equal]
pub enum Word {
    Absent,
    Dir(Seq<char>),
    Unreadable,
    Malformed,
}

impl View for Setting {
    type V = Word;

    open spec fn view(&self) -> Word {
        match *self {
            Setting::Absent => Word::Absent,
            Setting::Dir(dir) => Word::Dir(dir@),
            Setting::Unreadable => Word::Unreadable,
            Setting::Malformed(_) => Word::Malformed,
        }
    }
}

/// What a config file says of the target dir.
pub open spec fn word_of(file: ConfigFile) -> Word {
    match file {
        ConfigFile::Missing => Word::Absent,
        ConfigFile::Unreadable => Word::Unreadable,
        ConfigFile::Contents(contents) => match toml_string(
            contents@,
            "build"@,
            "target-dir"@,
        ) {
            None => Word::Malformed,
            Some(Some(dir)) => Word::Dir(dir),
            Some(None) => Word::Absent,
        },
    }
}

/// What a dir says of the target dir: the word of its `config.toml`, and the word
/// of its `config`.
#[verifier::ext_equal]
pub struct DirWords {
    pub config_toml: Word,
    pub config: Word,
}

/// What the word of the file at `place` comes to, if it is not `Absent`.
pub open spec fn said_at(word: Word, place: ConfigPlace) -> Configured {
    match word {
        Word::Absent => Configured::Nowhere,
        Word::Dir(dir) => Configured::At(dir),
        Word::Unreadable => Configured::Unread(place),
        Word::Malformed => Configured::Malformed(place),
    }
}

/// What the words from the place `i` on come to: the first that is not `Absent`
/// decides, and of one dir `config.toml` goes before `config`.
pub open spec fn decided_from(words: Seq<DirWords>, i: nat) -> Configured
    decreases words.len() - i,
{
    if i >= words.len() {
        Configured::Nowhere
    } else {
        let here = words[i as int];
        if !(here.config_toml is Absent) {
            said_at(here.config_toml, ConfigPlace { dir: i as usize, name: ConfigName::ConfigToml })
        } else if !(here.config is Absent) {
            said_at(here.config, ConfigPlace { dir: i as usize, name: ConfigName::Config })
        } else {
            decided_from(words, i + 1)
        }
    }
}

/// What the config files of a dir say of the target dir.
pub open spec fn words_of(dir: ConfigDir) -> DirWords {
    DirWords { config_toml: word_of(dir.config_toml), config: word_of(dir.config) }
}

/// What the config files of several dirs say of the target dir.
pub open spec fn configured(dirs: Seq<ConfigDir>) -> Configured {
    decided_from(dirs.map_values(|dir: ConfigDir| words_of(dir)), 0)
}

/// What a result of `read_config_target_dir` says.
pub open spec fn configured_by(r: Result<Option<String>, ConfigError>) -> Configured {
    match r {
        Ok(None) => Configured::Nowhere,
        Ok(Some(dir)) => Configured::At(dir@),
        Err(ConfigError::Reading(place)) => Configured::Unread(place),
        Err(ConfigError::Parsing(place, _)) => Configured::Malformed(place),
    }
}

/// What a config file says of the target dir.
pub fn read_setting(file: &ConfigFile) -> (r: Setting)
    ensures
        r@ == word_of(*file),
{
    match file {
        ConfigFile::Missing => Setting::Absent,
        ConfigFile::Unreadable => Setting::Unreadable,
        ConfigFile::Contents(contents) => match lookup(contents.as_str(), "build", "target-dir") {
            Ok(Some(dir)) => Setting::Dir(dir),
            Ok(None) => Setting::Absent,
            Err(e) => Setting::Malformed(e),
        },
    }
}

/// What the config files of one dir say of the target dir.
#[derive(Debug)]
pub struct DirSettings {
    pub config_toml: Setting,
    pub config: Setting,
}

impl View for DirSettings {
    type V = DirWords;

    open spec fn view(&self) -> DirWords {
        DirWords { config_toml: self.config_toml@, config: self.config@ }
    }
}

/// The setting at `place`.
pub open spec fn setting_at(settings: Seq<DirSettings>, place: ConfigPlace) -> Setting {
    match place.name {
        ConfigName::ConfigToml => settings[place.dir as int].config_toml,
        ConfigName::Config => settings[place.dir as int].config,
    }
}

/// Whether a config file says nothing.
fn is_silent(setting: &Setting) -> (r: bool)
    ensures
        r == (setting@ is Absent),
{
    match setting {
        Setting::Absent => true,
        _ => false,
    }
}

/// What the setting of the file at `place` comes to.
fn said(setting: Setting, place: ConfigPlace) -> (r: Result<Option<String>, ConfigError>)
    ensures
        configured_by(r) == said_at(setting@, place),
        r matches Err(ConfigError::Parsing(p, e)) ==> p == place && setting == Setting::Malformed(e),
{
    match setting {
        Setting::Absent => Ok(None),
        Setting::Dir(dir) => Ok(Some(dir)),
        Setting::Unreadable => Err(ConfigError::Reading(place)),
        Setting::Malformed(e) => Err(ConfigError::Parsing(place, e)),
    }
}

/// What the settings of several dirs come to.
pub fn decisive_setting(settings: Vec<DirSettings>) -> (r: Result<Option<String>, ConfigError>)
    ensures
        configured_by(r) == decided_from(settings@.map_values(|s: DirSettings| s@), 0),
        r matches Err(ConfigError::Parsing(place, e)) ==> place.dir < settings@.len()
            && setting_at(settings@, place) == Setting::Malformed(e),
{
    let ghost words = settings@.map_values(|s: DirSettings| s@);
    let mut rest = settings;
    let mut i: usize = 0;
    while i < rest.len()
        invariant
            i <= rest.len(),
            rest@ == settings@,
            words == settings@.map_values(|s: DirSettings| s@),
            decided_from(words, 0) == decided_from(words, i as nat),
        decreases rest.len() - i,
    {
        assert(words[i as int] == rest@[i as int]@);
        if !is_silent(&rest[i].config_toml) {
            let here = rest.remove(i);
            return said(here.config_toml, ConfigPlace { dir: i, name: ConfigName::ConfigToml });
        }
        if !is_silent(&rest[i].config) {
            let here = rest.remove(i);
            return said(here.config, ConfigPlace { dir: i, name: ConfigName::Config });
        }
        i = i + 1;
    }
    Ok(None)
}

/// The target dir that the configuration asks for. The dirs are those above the
/// manifest, nearest first.
pub fn read_config_target_dir(dirs: &Vec<ConfigDir>) -> (r: Result<Option<String>, ConfigError>)
    ensures
        configured_by(r) == configured(dirs@),
{
    let mut settings: Vec<DirSettings> = Vec::new();
    let mut i: usize = 0;
    while i < dirs.len()
        invariant
            i <= dirs.len(),
            settings@.len() == i,
            forall|k: int| 0 <= k < i ==> (#[trigger] settings@[k])@ == words_of(dirs@[k]),
        decreases dirs.len() - i,
    {
        let config_toml = read_setting(&dirs[i].config_toml);
        let config = read_setting(&dirs[i].config);
        settings.push(DirSettings { config_toml, config });
        i = i + 1;
    }
    assert(settings@.map_values(|s: DirSettings| s@) =~= dirs@.map_values(
        |dir: ConfigDir| words_of(dir),
    ));
    decisive_setting(settings)
}

/// A place where a manifest may stand.
#[derive(Debug)]
pub struct ManifestSite {
    /// The path of the manifest.
    pub manifest: std::path::PathBuf,
    /// Whether there is such a file.
    pub is_file: bool,
    /// The config files of the dirs above the manifest, nearest first.
    pub configs: Vec<ConfigDir>,
    /// `target/` beside the manifest, if the manifest is in a dir.
    pub default_target: Option<std::path::PathBuf>,
}

/// A target dir.
#[derive(Debug)]
pub enum TargetDir {
    Path(std::path::PathBuf),
    /// A path as it is written in a config file.
    Written(String),
}

impl Clone for TargetDir {
    fn clone(&self) -> (r: TargetDir)
        ensures
            r == *self,
    {
        match self {
            TargetDir::Path(path) => TargetDir::Path(path.clone()),
            TargetDir::Written(text) => TargetDir::Written(text.clone()),
        }
    }
}

/// Where a project is, and where it builds.
#[derive(Debug)]
pub struct ProjectPaths {
    pub manifest_path: std::path::PathBuf,
    pub target_dir: TargetDir,
}

impl Clone for ProjectPaths {
    fn clone(&self) -> (r: ProjectPaths)
        ensures
            r == *self,
    {
        ProjectPaths {
            manifest_path: self.manifest_path.clone(),
            target_dir: self.target_dir.clone(),
        }
    }
}

/// Why there are no `ProjectPaths`.
#[derive(Debug)]
pub enum ResolveError {
    /// The manifest that was asked for is not there.
    ManifestNotFound,
    /// There is no manifest in the current dir or any parent.
    NoManifest,
    /// The configuration cannot be read.
    Config(ConfigError),
    /// The manifest is not in a dir.
    NoParent,
}

/// The first of `sites` that has a manifest, from the place `i` on.
pub open spec fn first_manifest(sites: Seq<ManifestSite>, i: nat) -> Option<nat>
    decreases sites.len() - i,
{
    if i >= sites.len() {
        None
    } else if sites[i as int].is_file {
        Some(i)
    } else {
        first_manifest(sites, i + 1)
    }
}

/// The nearest manifest. The sites are the current dir and its parents, nearest
/// first.
pub fn find_manifest(sites: &Vec<ManifestSite>) -> (r: Option<usize>)
    ensures
        match r {
            Some(i) => first_manifest(sites@, 0) == Some(i as nat) && i < sites@.len(),
            None => first_manifest(sites@, 0) is None,
        },
{
    let mut i: usize = 0;
    while i < sites.len()
        invariant
            i <= sites.len(),
            first_manifest(sites@, 0) == first_manifest(sites@, i as nat),
        decreases sites.len() - i,
    {
        if sites[i].is_file {
            return Some(i);
        }
        i = i + 1;
    }
    None
}

/// The site of the project: the one that was asked for, or else the nearest.
pub open spec fn chosen_site(
    explicit: Option<ManifestSite>,
    ancestors: Seq<ManifestSite>,
) -> Option<ManifestSite> {
    match explicit {
        Some(site) => if site.is_file {
            Some(site)
        } else {
            None
        },
        None => match first_manifest(ancestors, 0) {
            Some(i) => Some(ancestors[i as int]),
            None => None,
        },
    }
}

/// Whether `dir` is the target dir of the project at `site`: the one that was
/// asked for, or else that of the environment, or else the configured one, or
/// else the one beside the manifest.
pub open spec fn is_target_of(
    dir: Result<TargetDir, ResolveError>,
    explicit: Option<std::path::PathBuf>,
    from_env: Option<std::path::PathBuf>,
    site: ManifestSite,
) -> bool {
    if explicit is Some {
        dir == Ok::<TargetDir, ResolveError>(TargetDir::Path(explicit->0))
    } else if from_env is Some {
        dir == Ok::<TargetDir, ResolveError>(TargetDir::Path(from_env->0))
    } else {
        match configured(site.configs@) {
            Configured::At(text) => dir matches Ok(TargetDir::Written(s)) && s@ == text,
            Configured::Unread(i) => dir matches Err(ResolveError::Config(ConfigError::Reading(k)))
                && k == i,
            Configured::Malformed(i) => dir matches Err(
                ResolveError::Config(ConfigError::Parsing(k, _)),
            ) && k == i,
            Configured::Nowhere => match site.default_target {
                Some(target) => dir == Ok::<TargetDir, ResolveError>(TargetDir::Path(target)),
                None => dir matches Err(ResolveError::NoParent),
            },
        }
    }
}

/// The target dir of a project. The dirs are those that `read_config_target_dir`
/// takes.
fn target_of(
    explicit: Option<std::path::PathBuf>,
    from_env: Option<std::path::PathBuf>,
    configs: &Vec<ConfigDir>,
    default_target: Option<std::path::PathBuf>,
) -> (r: Result<TargetDir, ResolveError>)
    ensures
        forall|site: ManifestSite|
            site.configs@ == configs@ && site.default_target == default_target
                ==> #[trigger] is_target_of(r, explicit, from_env, site),
{
    if let Some(t) = explicit {
        return Ok(TargetDir::Path(t));
    }
    if let Some(t) = from_env {
        return Ok(TargetDir::Path(t));
    }
    match read_config_target_dir(configs) {
        Err(e) => Err(ResolveError::Config(e)),
        Ok(Some(dir)) => Ok(TargetDir::Written(dir)),
        Ok(None) => match default_target {
            Some(t) => Ok(TargetDir::Path(t)),
            None => Err(ResolveError::NoParent),
        },
    }
}

/// Where the project is, and where it builds. `ancestors` are the current dir
/// and its parents, nearest first.
pub fn resolve(
    explicit_target: Option<std::path::PathBuf>,
    explicit_manifest: Option<ManifestSite>,
    from_env: Option<std::path::PathBuf>,
    ancestors: Vec<ManifestSite>,
) -> (r: Result<ProjectPaths, ResolveError>)
    ensures
        match chosen_site(explicit_manifest, ancestors@) {
            None => if explicit_manifest is Some {
                r matches Err(ResolveError::ManifestNotFound)
            } else {
                r matches Err(ResolveError::NoManifest)
            },
            Some(site) => match r {
                Ok(paths) => paths.manifest_path == site.manifest && is_target_of(
                    Ok(paths.target_dir),
                    explicit_target,
                    from_env,
                    site,
                ),
                Err(e) => is_target_of(Err(e), explicit_target, from_env, site),
            },
        },
{
    let mut ancestors = ancestors;
    let site = match explicit_manifest {
        Some(site) => {
            if !site.is_file {
                return Err(ResolveError::ManifestNotFound);
            }
            site
        },
        None => match find_manifest(&ancestors) {
            Some(i) => ancestors.remove(i),
            None => {
                return Err(ResolveError::NoManifest);
            },
        },
    };
    let ghost chosen = site;
    let ManifestSite { manifest, is_file: _, configs, default_target } = site;
    match target_of(explicit_target, from_env, &configs, default_target) {
        Ok(target_dir) => {
            assert(is_target_of(Ok(target_dir), explicit_target, from_env, chosen));
            Ok(ProjectPaths { manifest_path: manifest, target_dir })
        },
        Err(e) => {
            assert(is_target_of(Err(e), explicit_target, from_env, chosen));
            Err(e)
        },
    }
}

} // verus!

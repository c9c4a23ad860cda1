use cargo_grime_cremator::cli::{has_subcommand, Cli};
use cargo_grime_cremator::target_dir::{
    decisive_setting, find_manifest, list_profile_dirs, read_config_target_dir, read_setting,
    resolve, ConfigDir, ConfigError, ConfigFile, ConfigName, ConfigPlace, DirSettings,
    ManifestSite, ResolveError, Setting, TargetDir, TargetEntry,
};
use cargo_grime_cremator::timestamp::Timestamp;
use std::path::PathBuf;

fn site(dir: &str, is_file: bool, configs: Vec<ConfigDir>) -> ManifestSite {
    ManifestSite {
        manifest: PathBuf::from(dir).join("Cargo.toml"),
        is_file,
        configs,
        default_target: Some(PathBuf::from(dir).join("target")),
    }
}

fn contents(text: &str) -> ConfigFile {
    ConfigFile::Contents(text.to_string())
}

/// A dir with both config files.
fn both(config_toml: ConfigFile, config: ConfigFile) -> ConfigDir {
    ConfigDir {
        config_toml,
        config,
    }
}

/// A dir with a `config.toml`.
fn toml(file: ConfigFile) -> ConfigDir {
    both(file, ConfigFile::Missing)
}

/// A dir with a `config`.
fn plain(file: ConfigFile) -> ConfigDir {
    both(ConfigFile::Missing, file)
}

fn place(dir: usize, name: ConfigName) -> ConfigPlace {
    ConfigPlace { dir, name }
}

fn settings(config_toml: Setting, config: Setting) -> DirSettings {
    DirSettings {
        config_toml,
        config,
    }
}

const CONFIG: &str = "[build]\ntarget-dir = \"/tmp/somewhere\"\n";

#[test]
fn finds_cargo_toml_in_cwd() {
    let sites = vec![site("/p", true, vec![]), site("/", false, vec![])];
    let found = find_manifest(&sites).unwrap();
    assert_eq!(sites[found].manifest, PathBuf::from("/p/Cargo.toml"));
}

#[test]
fn walks_up_to_find_cargo_toml() {
    let sites = vec![
        site("/p/a/b/c", false, vec![]),
        site("/p/a/b", false, vec![]),
        site("/p/a", false, vec![]),
        site("/p", true, vec![]),
        site("/", true, vec![]),
    ];
    let found = find_manifest(&sites).unwrap();
    assert_eq!(sites[found].manifest, PathBuf::from("/p/Cargo.toml"));
    assert!(find_manifest(&vec![site("/", false, vec![])]).is_none());
}

#[test]
fn reads_config_toml_target_dir() {
    let dirs = vec![toml(contents(CONFIG)), toml(ConfigFile::Missing)];
    let target = read_config_target_dir(&dirs).unwrap();
    assert_eq!(target, Some("/tmp/somewhere".to_string()));
}

#[test]
fn no_config_returns_none() {
    let dirs = vec![toml(ConfigFile::Missing), toml(ConfigFile::Missing)];
    assert_eq!(read_config_target_dir(&dirs).unwrap(), None);
    assert_eq!(read_config_target_dir(&vec![]).unwrap(), None);
}

#[test]
fn nearest_setting_decides() {
    let dirs = vec![
        plain(contents("[net]\noffline = true\n")),
        toml(contents("[build]\ntarget-dir = \"near\"\n")),
        toml(contents("[build]\ntarget-dir = \"far\"\n")),
        toml(contents("not toml at all [")),
    ];
    assert_eq!(
        read_config_target_dir(&dirs).unwrap(),
        Some("near".to_string())
    );
}

#[test]
fn config_toml_goes_before_config() {
    let a = || contents("[build]\ntarget-dir = \"a\"\n");
    let b = || contents("[build]\ntarget-dir = \"b\"\n");
    let target = |dir| read_config_target_dir(&vec![dir, toml(contents(CONFIG))]).unwrap();
    assert_eq!(target(both(a(), b())), Some("a".to_string()));
    assert_eq!(target(both(b(), a())), Some("b".to_string()));
    assert_eq!(target(plain(a())), Some("a".to_string()));
    assert_eq!(target(both(contents(""), b())), Some("b".to_string()));
    // The second file of a dir is not looked at where the first decides.
    assert_eq!(target(both(a(), contents("="))), Some("a".to_string()));
    let dirs = vec![both(ConfigFile::Missing, ConfigFile::Missing), both(contents("="), a())];
    assert!(matches!(
        read_config_target_dir(&dirs),
        Err(ConfigError::Parsing(p, _)) if p == place(1, ConfigName::ConfigToml)
    ));
}

#[test]
fn setting_of_another_type_is_no_setting() {
    for text in [
        "[build]\ntarget-dir = 5\n",
        "build = \"target-dir\"\n",
        "target-dir = \"top\"\n",
        "[build]\nrustflags = []\n",
        "",
    ] {
        assert!(matches!(read_setting(&contents(text)), Setting::Absent), "{:?}", text);
    }
    assert!(matches!(
        read_setting(&contents("build.target-dir = 'dotted'")),
        Setting::Dir(dir) if dir == "dotted"
    ));
}

#[test]
fn first_unusable_config_is_an_error() {
    let dirs = vec![
        toml(contents("")),
        plain(ConfigFile::Unreadable),
        toml(contents(CONFIG)),
    ];
    assert!(matches!(
        read_config_target_dir(&dirs),
        Err(ConfigError::Reading(p)) if p == place(1, ConfigName::Config)
    ));
    let dirs = vec![both(ConfigFile::Missing, contents("x = = 1")), toml(contents(CONFIG))];
    assert!(matches!(
        read_config_target_dir(&dirs),
        Err(ConfigError::Parsing(p, _)) if p == place(0, ConfigName::Config)
    ));
    assert!(matches!(
        decisive_setting(vec![
            settings(Setting::Absent, Setting::Dir("d".to_string())),
            settings(Setting::Unreadable, Setting::Absent),
        ]),
        Ok(Some(d)) if d == "d"
    ));
    assert!(matches!(
        decisive_setting(vec![settings(Setting::Absent, Setting::Absent)]),
        Ok(None)
    ));
    let near = read_setting(&contents("near = = 1"));
    let far = read_setting(&contents("]"));
    let said = match &near {
        Setting::Malformed(e) => e.to_string(),
        other => panic!("{:?}", other),
    };
    match decisive_setting(vec![settings(Setting::Absent, near), settings(far, Setting::Absent)]) {
        Err(ConfigError::Parsing(p, e)) => {
            assert_eq!(p, place(0, ConfigName::Config));
            assert_eq!(e.to_string(), said);
        }
        other => panic!("{:?}", other),
    }
}

fn path(t: &TargetDir) -> String {
    match t {
        TargetDir::Path(p) => format!("path {}", p.display()),
        TargetDir::Written(s) => format!("written {}", s),
    }
}

#[test]
fn target_dir_is_looked_for_in_order() {
    let here = || vec![site("/p", true, vec![toml(contents(CONFIG))])];
    let given = || Some(PathBuf::from("/given"));
    let env = || Some(PathBuf::from("/env"));
    let r = resolve(given(), None, env(), here()).unwrap();
    assert_eq!(path(&r.target_dir), "path /given");
    assert_eq!(r.manifest_path, PathBuf::from("/p/Cargo.toml"));
    let r = resolve(None, None, env(), here()).unwrap();
    assert_eq!(path(&r.target_dir), "path /env");
    let r = resolve(None, None, None, here()).unwrap();
    assert_eq!(path(&r.target_dir), "written /tmp/somewhere");
    let again = r.clone();
    assert_eq!(path(&again.target_dir), "written /tmp/somewhere");
    assert_eq!(again.manifest_path, r.manifest_path);
    let r = resolve(None, None, None, vec![site("/p", true, vec![])]).unwrap();
    assert_eq!(path(&r.target_dir), "path /p/target");
}

#[test]
fn explicit_manifest_goes_before_the_nearest() {
    let r = resolve(
        None,
        Some(site("/q", true, vec![])),
        None,
        vec![site("/p", true, vec![])],
    )
    .unwrap();
    assert_eq!(r.manifest_path, PathBuf::from("/q/Cargo.toml"));
    assert_eq!(path(&r.target_dir), "path /q/target");
}

#[test]
fn unresolvable_projects_are_errors() {
    assert!(matches!(
        resolve(None, Some(site("/q", false, vec![])), None, vec![site("/p", true, vec![])]),
        Err(ResolveError::ManifestNotFound)
    ));
    assert!(matches!(
        resolve(None, None, None, vec![site("/p", false, vec![])]),
        Err(ResolveError::NoManifest)
    ));
    assert!(matches!(
        resolve(None, None, None, vec![site("/p", true, vec![plain(ConfigFile::Unreadable)])]),
        Err(ResolveError::Config(ConfigError::Reading(p))) if p == place(0, ConfigName::Config)
    ));
    assert!(matches!(
        resolve(None, None, None, vec![site("/p", true, vec![toml(contents("="))])]),
        Err(ResolveError::Config(ConfigError::Parsing(p, _)))
            if p == place(0, ConfigName::ConfigToml)
    ));
    let mut rootless = site("", true, vec![]);
    rootless.default_target = None;
    assert!(matches!(
        resolve(None, Some(rootless), None, vec![]),
        Err(ResolveError::NoParent)
    ));
}

fn entry(name: &str, is_dir: bool, has_fingerprint: bool) -> TargetEntry {
    TargetEntry {
        name: name.to_string(),
        is_dir,
        has_fingerprint,
    }
}

#[test]
fn profiles_are_listed_by_name() {
    let entries = vec![
        entry("release", true, true),
        entry("doc", true, true),
        entry("package", true, true),
        entry("tmp", true, true),
        entry(".rustc_info", true, true),
        entry("CACHEDIR.TAG", false, true),
        entry("x86_64-unknown-linux-gnu", true, false),
        entry("debug", true, true),
        entry("", true, true),
        entry("Bench", true, true),
    ];
    assert_eq!(
        list_profile_dirs(&entries),
        vec!["", "Bench", "debug", "release"]
    );
}

fn cli() -> Cli {
    Cli {
        dry_run: true,
        target_dir: None,
        manifest_path: None,
        project: None,
        profile: Some("debug".to_string()),
        keep_sessions: 3,
        max_age: "1 month".to_string(),
        prune_profile: vec!["release".to_string()],
        prune_target: vec!["fixture".to_string()],
        verbose: false,
        list_targets: false,
        list_profiles: false,
        list: false,
    }
}

#[test]
fn subcommand_name_is_told_from_arguments() {
    let arg = |s: &str| Some(s.to_string());
    assert!(has_subcommand(&vec![arg("cargo-gc"), arg("gc"), arg("--list")]));
    assert!(!has_subcommand(&vec![arg("cargo-gc"), arg("--list"), arg("gc")]));
    assert!(!has_subcommand(&vec![arg("gc")]));
    assert!(!has_subcommand(&vec![arg("cargo-gc"), None]));
    assert!(!has_subcommand(&vec![]));
}

#[test]
fn list_flags_ask_for_listings() {
    let mut c = cli();
    assert!(!c.any_list() && !c.want_list_targets() && !c.want_list_profiles());
    c.list_targets = true;
    assert!(c.any_list() && c.want_list_targets() && !c.want_list_profiles());
    c.list_targets = false;
    c.list_profiles = true;
    assert!(c.any_list() && !c.want_list_targets() && c.want_list_profiles());
    c.list_profiles = false;
    c.list = true;
    assert!(c.any_list() && c.want_list_targets() && c.want_list_profiles());
}

#[test]
fn manifest_path_goes_before_project() {
    let mut c = cli();
    assert!(c.manifest_override().is_none());
    c.project = Some(PathBuf::from("/project"));
    assert_eq!(c.manifest_override(), Some(&PathBuf::from("/project")));
    c.manifest_path = Some(PathBuf::from("/manifest"));
    assert_eq!(c.manifest_override(), Some(&PathBuf::from("/manifest")));
}

#[test]
fn flags_become_options() {
    let cutoff = Timestamp::after_epoch(5, 0);
    let o = cli().sweep_options(Some(cutoff));
    assert!(o.dry_run && !o.verbose);
    assert_eq!(o.keep_sessions, 3);
    assert_eq!(o.only_profile, Some("debug".to_string()));
    assert_eq!(o.max_age_cutoff, Some(cutoff));
    assert_eq!(o.prune_profiles, vec!["release".to_string()]);
    assert_eq!(o.prune_targets, vec!["fixture".to_string()]);
}

use libpkgx::args::{parse, ArgsError, Mode};
use libpkgx::config::{Config, ConfigEnv, ConfigError};
use libpkgx::pantry::{dep_constraint_text, PackageEntryIterator, PantryEntry, RawPantryEntry};
use libpkgx::utils::{good_on_macos, next_level};

fn argv(xs: &[&str]) -> Vec<String> {
    xs.iter().map(|s| s.to_string()).collect()
}

#[test]
fn args_plus_and_program() {
    let a = parse(&argv(&["+openssl", "++zlib.net", "-q", "node@20", "--eval", "1"])).unwrap();
    assert_eq!(a.plus, vec!["openssl", "zlib.net"]);
    assert_eq!(a.args, vec!["node@20", "--eval", "1"]);
    assert!(a.find_program);
    assert!(a.flags.quiet);
    assert!(!a.flags.silent);
    assert_eq!(a.mode, Mode::X);
}

#[test]
fn args_flags_and_modes() {
    let a = parse(&argv(&["-qq", "--json=v1", "-!", "--", "./script.sh"])).unwrap();
    assert!(a.flags.quiet && a.flags.silent && a.flags.json && a.flags.shebang);
    assert!(!a.find_program);
    assert_eq!(a.args, vec!["./script.sh"]);
    assert_eq!(parse(&argv(&["--help"])).unwrap().mode, Mode::Help);
    assert_eq!(parse(&argv(&["-Q", "git"])).unwrap().mode, Mode::Query);
    assert_eq!(parse(&argv(&["./x/y"])).unwrap().find_program, false);
}

#[test]
fn args_errors() {
    assert_eq!(parse(&argv(&["--shellcode"])).unwrap_err(), ArgsError::MigrationRequired);
    assert!(matches!(parse(&argv(&["--nope"])).unwrap_err(), ArgsError::UnknownArgument(_)));
    assert!(matches!(parse(&argv(&["-z"])).unwrap_err(), ArgsError::UnknownArgument(_)));
}

fn env() -> ConfigEnv {
    ConfigEnv {
        pantry_dir_var: None,
        pkgx_dir_var: None,
        dist_url_var: None,
        xdg_data_home: None,
        current_dir: Some("/work".to_string()),
        home_dir: Some("/home/u".to_string()),
        home_pkgx_exists: true,
        data_local_dir: Some("/home/u/.local/share".to_string()),
        cache_dir: Some("/home/u/.cache".to_string()),
        default_dist_url: "https://dist.pkgx.dev".to_string(),
    }
}

#[test]
fn config_defaults() {
    let c = Config::new(&env()).unwrap();
    assert_eq!(c.pantry_dir, "/home/u/.local/share/pkgx/pantry");
    assert_eq!(c.pantry_db_file, "/home/u/.cache/pkgx/pantry.2.db");
    assert_eq!(c.pkgx_dir, "/home/u/.pkgx");
    assert_eq!(c.dist_url, "https://dist.pkgx.dev");
}

#[test]
fn config_overrides() {
    let mut e = env();
    e.pantry_dir_var = Some("pantry".to_string());
    e.pkgx_dir_var = Some("relative".to_string());
    e.home_pkgx_exists = false;
    e.xdg_data_home = Some("/xdg".to_string());
    e.dist_url_var = Some("https://mirror".to_string());
    let c = Config::new(&e).unwrap();
    assert_eq!(c.pantry_dir, "/work/pantry");
    assert_eq!(c.pantry_db_file, "/work/pantry/pantry.2.db");
    assert_eq!(c.pkgx_dir, "/xdg/pkgx");
    assert_eq!(c.dist_url, "https://mirror");
    e.data_local_dir = None;
    e.pantry_dir_var = None;
    assert_eq!(Config::new(&e).unwrap_err(), ConfigError::NoDataDir);
}

#[test]
fn macos_stub_tools() {
    assert!(!good_on_macos("/usr/bin/git", false));
    assert!(good_on_macos("/usr/bin/git", true));
    assert!(good_on_macos("/usr/bin/ls", false));
}

#[test]
fn pantry_entries() {
    let raw = RawPantryEntry {
        dependencies: vec![("zlib.net".to_string(), "^1.2".to_string())],
        provides: vec!["bin/curl".to_string()],
        companions: vec![("ca-certs".to_string(), "*".to_string())],
        env: vec![("SSL_CERT_FILE".to_string(), "{{prefix}}/cert".to_string())],
    };
    let e = PantryEntry::from_raw_entry(&raw, "curl.se".to_string()).unwrap();
    assert_eq!(e.project, "curl.se");
    assert_eq!(e.deps[0].project, "zlib.net");
    assert!(e.companions[0].constraint.is_wildcard());
    let mut bad = raw.clone();
    bad.dependencies.push(("x.org".to_string(), "^what".to_string()));
    assert!(PantryEntry::from_raw_entry(&bad, "curl.se".to_string()).is_none());
    assert_eq!(dep_constraint_text("1.2", false), "^1.2");
    assert_eq!(dep_constraint_text("3", true), "^3");
    assert_eq!(dep_constraint_text(">=2", false), ">=2");
}

#[test]
fn pantry_walk() {
    let mut it = PackageEntryIterator::new("/p/projects".to_string());
    assert_eq!(it.take_path().as_deref(), Some("/p/projects"));
    it.push_entries(&vec!["/p/projects/gnu.org".to_string()]);
    assert_eq!(it.take_path().as_deref(), Some("/p/projects/gnu.org"));
    assert!(it.take_path().is_none());
    assert_eq!(it.project_of("/p/projects/gnu.org/wget/package.yml").as_deref(), Some("gnu.org/wget"));
    assert!(it.project_of("/p/projects/gnu.org/wget/README").is_none());
}

#[test]
fn config_missing_directories() {
    let mut e = env();
    e.cache_dir = None;
    assert_eq!(Config::new(&e).unwrap_err(), ConfigError::NoCacheDir);
    let mut e = env();
    e.home_dir = None;
    assert_eq!(Config::new(&e).unwrap_err(), ConfigError::NoHomeDir);
    e.xdg_data_home = Some("/xdg".to_string());
    assert_eq!(Config::new(&e).unwrap().pkgx_dir, "/xdg/pkgx");
    let mut e = env();
    e.pkgx_dir_var = Some("/opt/pkgx".to_string());
    assert_eq!(Config::new(&e).unwrap().pkgx_dir, "/opt/pkgx");
}

#[test]
fn program_lookup() {
    let paths = vec!["/a/bin".to_string(), "/usr/bin".to_string()];
    assert_eq!(libpkgx::utils::program_candidates("git", &paths), vec!["/a/bin/git", "/usr/bin/git"]);
    let none: Vec<String> = vec![];
    assert_eq!(libpkgx::utils::find_program("/bin/sh", "/w", &none).as_deref(), Some("/bin/sh"));
    assert_eq!(libpkgx::utils::find_program("./x.sh", "/w", &none).as_deref(), Some("/w/./x.sh"));
    assert_eq!(libpkgx::utils::find_program("git", "/w", &vec!["/usr/bin/git".to_string()]).as_deref(), Some("/usr/bin/git"));
    assert!(libpkgx::utils::find_program("git", "/w", &none).is_none());
}

#[test]
fn nesting_levels() {
    assert_eq!(next_level(None), Some(1));
    assert_eq!(next_level(Some("3")), Some(4));
    assert_eq!(next_level(Some("+8")), Some(9));
    assert_eq!(next_level(Some("9")), None);
    assert_eq!(next_level(Some("banana")), Some(1));
    assert_eq!(next_level(Some("-5")), Some(-4));
    assert_eq!(next_level(Some("99999999999")), Some(1));
    assert_eq!(next_level(Some("-2147483648")), Some(-2147483647));
}

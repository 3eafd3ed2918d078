use libpkgx::env::{construct_platform_case_aware_env_key, expand_moustaches, materialize, mix, mix_runtime, CaseInsensitiveKey};
use libpkgx::types::{Host, Installation, Package};
use libpkgx::version::Version;

fn inst(project: &str, version: &str, path: &str) -> Installation {
    Installation {
        path: path.to_string(),
        pkg: Package { project: project.to_string(), version: Version::parse(version).unwrap() },
    }
}

fn get<'a>(env: &'a [(String, String)], k: &str) -> Option<&'a str> {
    env.iter().find(|(n, _)| n == k).map(|(_, v)| v.as_str())
}

#[test]
fn derive_paths_from_layout() {
    let i = inst("foo.org", "1.2.3", "/s/foo.org/v1.2.3");
    let dirs = vec!["/s/foo.org/v1.2.3/bin".to_string(), "/s/foo.org/v1.2.3/lib".to_string()];
    let m = libpkgx::env::map(&vec![i], &dirs, Host::Linux);
    let path = m.iter().find(|(k, _)| k == "PATH").unwrap();
    assert_eq!(path.1, vec!["/s/foo.org/v1.2.3/bin"]);
    let lib = m.iter().find(|(k, _)| k == "LIBRARY_PATH").unwrap();
    assert_eq!(lib.1, vec!["/s/foo.org/v1.2.3/lib"]);
    assert!(m.iter().all(|(k, _)| k != "MANPATH" && k != "DYLD_FALLBACK_LIBRARY_PATH"));
}

#[test]
fn derive_paths_keeps_installation_order() {
    let a = inst("a.org", "1.0.0", "/s/a");
    let b = inst("b.org", "1.0.0", "/s/b");
    let dirs = vec!["/s/b/bin".to_string(), "/s/a/bin".to_string(), "/s/a/share/man".to_string(), "/s/b/share".to_string()];
    let m = libpkgx::env::map(&vec![a, b], &dirs, Host::Darwin);
    let path = m.iter().find(|(k, _)| k == "PATH").unwrap();
    assert_eq!(path.1, vec!["/s/a/bin", "/s/b/bin"]);
    let man = m.iter().find(|(k, _)| k == "MANPATH").unwrap();
    assert_eq!(man.1, vec!["/s/a/share/man", "/usr/share/man"]);
    let xdg = m.iter().find(|(k, _)| k == "XDG_DATA_DIRS").unwrap();
    assert_eq!(xdg.1, vec!["/s/b/share", "/usr/local/share", "/usr/share"]);
}

#[test]
fn cmake_prefix_lists_every_installation() {
    let a = inst("cmake.org", "3.28.0", "/s/cmake");
    let b = inst("zlib.net", "1.3.0", "/s/zlib");
    let m = libpkgx::env::map(&vec![a, b], &vec![], Host::Linux);
    let c = m.iter().find(|(k, _)| k == "CMAKE_PREFIX_PATH").unwrap();
    assert_eq!(c.1, vec!["/s/cmake", "/s/zlib"]);
}

#[test]
fn moustaches_expand() {
    let foo = inst("foo", "3.4.5", "/s/foo/v3.4.5");
    let me = inst("openssl.org", "1.1.1", "/s/openssl.org/v1.1.1");
    let deps = vec![me.clone(), foo];
    assert_eq!(expand_moustaches("{{prefix}}/ssl/cert.pem", &me, &deps), "/s/openssl.org/v1.1.1/ssl/cert.pem");
    assert_eq!(expand_moustaches("{{deps.foo.version.major}}", &me, &deps), "3");
    assert_eq!(expand_moustaches("{{version.marketing}}-{{version.patch}}", &me, &deps), "1.1-1");
    assert_eq!(expand_moustaches("${{prefix}}", &me, &deps), "/s/openssl.org/v1.1.1");
    assert_eq!(expand_moustaches("{{unknown}}", &me, &deps), "{{unknown}}");
}

#[test]
fn mix_prepends_to_parent() {
    let derived = vec![("PATH".to_string(), vec!["/a/bin".to_string(), "/b/bin".to_string()]), ("MANPATH".to_string(), vec!["/a/man".to_string()])];
    let parent = vec![("PATH".to_string(), "/usr/bin".to_string()), ("HOME".to_string(), "/home/u".to_string())];
    let env = mix(&derived, &parent);
    assert_eq!(get(&env, "PATH"), Some("/a/bin:/b/bin:/usr/bin"));
    assert_eq!(get(&env, "MANPATH"), Some("/a/man"));
    assert_eq!(get(&env, "HOME"), Some("/home/u"));
}

#[test]
fn runtime_templates_merge() {
    let me = inst("x.org", "2.0.0", "/s/x");
    let input = vec![("PATH".to_string(), "/a/bin".to_string())];
    let runtime = vec![vec![
        ("PATH".to_string(), "{{prefix}}/extra:$PATH".to_string()),
        ("FOO".to_string(), "{{prefix}}/foo".to_string()),
        ("BAR".to_string(), "pre:$BAR".to_string()),
    ]];
    let out = mix_runtime(&input, &vec![me], &runtime);
    assert_eq!(get(&out, "PATH"), Some("/s/x/extra:/a/bin:$PATH"));
    assert_eq!(get(&out, "FOO"), Some("${FOO:-/s/x/foo}"));
    assert_eq!(get(&out, "BAR"), Some("pre:$BAR"));
    let fin = materialize(&out);
    assert_eq!(get(&fin, "PATH"), Some("/s/x/extra:/a/bin"));
    assert_eq!(get(&fin, "FOO"), Some("/s/x/foo"));
    assert_eq!(get(&fin, "BAR"), Some("pre"));
}

#[test]
fn runtime_template_without_reference_loses_to_parent() {
    let me = inst("x.org", "2.0.0", "/s/x");
    let input = vec![("SSL_CERT_FILE".to_string(), "/etc/cert".to_string())];
    let runtime = vec![vec![("SSL_CERT_FILE".to_string(), "{{prefix}}/cert".to_string())]];
    let out = mix_runtime(&input, &vec![me], &runtime);
    assert_eq!(get(&out, "SSL_CERT_FILE"), Some("/etc/cert:$SSL_CERT_FILE"));
}

#[test]
fn env_keys() {
    assert_eq!(construct_platform_case_aware_env_key("Path".to_string()), "Path");
    let a = CaseInsensitiveKey("Path".to_string());
    let b = CaseInsensitiveKey("PATH".to_string());
    let c = CaseInsensitiveKey("PATHS".to_string());
    assert!(a == b);
    assert!(a != c);
}

#[test]
fn export_lines_guard_unset_variables() {
    assert_eq!(libpkgx::env::export_line("PATH", "/a/bin:$PATH"), "PATH=\"/a/bin${PATH:+:$PATH}\"");
    assert_eq!(libpkgx::env::export_line("FOO", "bar"), "FOO=\"bar\"");
}

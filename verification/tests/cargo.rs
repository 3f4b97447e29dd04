//! The Cargo-hosted tool's decisions: forwarded options, command arguments,
//! package, target and artifact selection, and `init`'s edits.

use snacc_compiler::cargo::{
    build_arguments, check_host_template, check_options, check_schema, doctor_verdict, executable_of, forwarded,
    host_target, initialize_manifest, join_commas, names_current_dir, parse_init_args, refuse_reinitialize,
    select_by_directory, select_named_package, test_filter, ArtifactMessage, TargetInfo, CARGO_MAIN_TEMPLATE,
    HOST_MAIN_TEMPLATE,
};
use snacc_compiler::tools::parse_options;

fn strings(values: &[&str]) -> Vec<String> {
    values.iter().map(|value| (*value).to_string()).collect()
}

fn message(reason: &str, package: &str, name: &str, kinds: &[&str], executable: Option<&str>) -> ArtifactMessage {
    ArtifactMessage {
        reason: Some(reason.to_string()),
        package_id: Some(package.to_string()),
        target_name: Some(name.to_string()),
        target_kinds: Some(strings(kinds)),
        executable: executable.map(str::to_string),
    }
}

#[test]
fn cargo_artifact_selection_requires_package_target_and_kind() {
    let messages = vec![
        message("compiler-artifact", "other", "app", &["bin"], Some("wrong.exe")),
        message("compiler-artifact", "path+file:///workspace#app@0.1.0", "app", &["bin"], Some("right.exe")),
    ];
    assert_eq!(
        executable_of(&messages, "path+file:///workspace#app@0.1.0", "app", "bin").as_deref(),
        Some("right.exe")
    );
}

#[test]
fn artifact_selection_skips_other_reasons_names_and_kinds() {
    let id = "pkg";
    let messages = vec![
        message("compiler-message", id, "app", &["bin"], Some("message.exe")),
        message("compiler-artifact", id, "other", &["bin"], Some("other.exe")),
        message("compiler-artifact", id, "app", &["lib"], Some("lib.rlib")),
        message("compiler-artifact", id, "app", &["bin"], Some("app.exe")),
        message("compiler-artifact", id, "app", &["bin"], Some("later.exe")),
    ];
    assert_eq!(executable_of(&messages, id, "app", "bin").as_deref(), Some("app.exe"));
    assert_eq!(executable_of(&messages, id, "missing", "bin"), None);
    let without = vec![message("compiler-artifact", id, "app", &["bin"], None), message("compiler-artifact", id, "app", &["bin"], Some("x"))];
    assert_eq!(executable_of(&without, id, "app", "bin"), None, "the first matching message decides");
}

#[test]
fn build_options_forward_profiles_and_features() {
    let parsed = parse_options(&strings(&["--profile", "release", "--features", "a,b", "--locked", "--offline"])).unwrap();
    assert_eq!(forwarded(&parsed.options, true), ["--profile", "release", "--features", "a,b", "--locked", "--offline"]);
    assert_eq!(forwarded(&parsed.options, false), ["--features", "a,b", "--locked", "--offline"]);
    let parsed = parse_options(&strings(&["--release", "--all-features", "--no-default-features", "--frozen"])).unwrap();
    assert_eq!(forwarded(&parsed.options, true), ["--release", "--all-features", "--no-default-features", "--frozen"]);
    let parsed = parse_options(&strings(&[])).unwrap();
    assert!(forwarded(&parsed.options, true).is_empty());
}

#[test]
fn join_commas_inverts_splitting() {
    assert_eq!(join_commas(&strings(&["a", "", "b"])), "a,,b");
    assert_eq!(join_commas(&strings(&[])), "");
}

#[test]
fn each_command_checks_its_own_arguments() {
    let release = parse_options(&strings(&["--release"])).unwrap();
    assert_eq!(
        check_options(&release.options).unwrap_err().0,
        "check does not support --release or --profile; use build --release to check in release mode"
    );
    assert!(check_options(&parse_options(&strings(&["--offline"])).unwrap().options).is_ok());

    let stray = parse_options(&strings(&["x"])).unwrap();
    assert_eq!(build_arguments(&stray, false).unwrap_err().0, "unexpected argument 'x'");
    let trailing = parse_options(&strings(&["--", "arg"])).unwrap();
    assert_eq!(build_arguments(&trailing, false).unwrap_err().0, "build does not accept arguments after '--'");
    assert!(build_arguments(&trailing, true).is_ok(), "run passes what follows '--' to the program");

    let two = parse_options(&strings(&["a", "b"])).unwrap();
    assert_eq!(test_filter(&two).unwrap_err().0, "test accepts at most one filter");
    let one = parse_options(&strings(&["a"])).unwrap();
    assert_eq!(test_filter(&one).unwrap().as_deref(), Some("a"));
    assert_eq!(test_filter(&parse_options(&strings(&[])).unwrap()).unwrap(), None);
}

#[test]
fn packages_are_selected_by_name_or_directory() {
    let names = strings(&["core", "app", "app"]);
    assert_eq!(select_named_package(&names, "app").unwrap(), 1);
    assert_eq!(select_named_package(&names, "tool").unwrap_err().0, "package 'tool' was not found");
    assert_eq!(select_by_directory(Some(2), &vec![true, true, true]).unwrap(), 2);
    assert_eq!(select_by_directory(None, &vec![false, true, false]).unwrap(), 1);
    assert_eq!(
        select_by_directory(None, &vec![true, true]).unwrap_err().0,
        "package selection is ambiguous; use --package"
    );
    assert!(select_by_directory(None, &vec![false]).is_err());
}

#[test]
fn the_host_binary_resolves_to_exactly_one_target() {
    let targets = vec![
        TargetInfo { name: "app".into(), kind: strings(&["lib"]) },
        TargetInfo { name: "app".into(), kind: strings(&["bin"]) },
        TargetInfo { name: "tool".into(), kind: strings(&["bin"]) },
    ];
    assert_eq!(host_target(&targets, "app").unwrap(), 1);
    assert_eq!(
        host_target(&targets, "missing").unwrap_err().0,
        "host binary 'missing' does not resolve to exactly one binary target"
    );
    let twice = vec![
        TargetInfo { name: "app".into(), kind: strings(&["bin"]) },
        TargetInfo { name: "app".into(), kind: strings(&["bin", "test"]) },
    ];
    assert!(host_target(&twice, "app").is_err());
}

#[test]
fn only_schema_version_one_is_read() {
    assert!(check_schema(1).is_ok());
    assert_eq!(check_schema(2).unwrap_err().0, "unsupported package.metadata.snacc schema-version 2");
}

#[test]
fn doctor_lists_every_problem() {
    assert!(doctor_verdict(&Vec::new()).is_ok());
    assert_eq!(
        doctor_verdict(&strings(&["no cargo", "no linker"])).unwrap_err().0,
        "doctor found 2 problem(s):\n- no cargo\n- no linker"
    );
}

#[test]
fn init_takes_one_path_and_a_name() {
    let a = parse_init_args(&strings(&[])).unwrap();
    assert_eq!(a.path, ".");
    assert!(a.name.is_none());
    let a = parse_init_args(&strings(&["demo", "--name", "-odd"])).unwrap();
    assert_eq!(a.path, "demo");
    assert_eq!(a.name.as_deref(), Some("-odd"));
    assert_eq!(parse_init_args(&strings(&["a", "b"])).unwrap_err().0, "unexpected init argument 'b'");
    assert_eq!(parse_init_args(&strings(&["--name"])).unwrap_err().0, "--name requires a value");
    assert_eq!(parse_init_args(&strings(&["-x"])).unwrap_err().0, "unknown init option '-x'");
    assert_eq!(parse_init_args(&strings(&["./", "b"])).unwrap().path, "b", "'./' is still the current directory");
}

#[test]
fn the_current_directory_is_recognised_by_its_segments() {
    for yes in [".", "./", "././", ".//"] {
        assert!(names_current_dir(&yes.to_string()), "{yes}");
    }
    for no in ["", "..", "./a", "a/.", "/"] {
        assert!(!names_current_dir(&no.to_string()), "{no}");
    }
}

#[test]
fn init_adds_the_runtime_and_the_snacc_sections() {
    let edited = initialize_manifest("[package]\nname = \"app\"\n\n[dependencies]\nserde = \"1\"\n", "app");
    assert!(edited.starts_with("[package]\nname = \"app\"\n\n[dependencies]\nsnacc-runtime = \"0.1\"\nserde = \"1\"\n"));
    assert!(edited.contains("\n[package.metadata.snacc]\nschema-version = 1\nentry = \"src/main.nrs\"\nhost-bin = \"app\"\n"));
    assert!(edited.ends_with("check-cfg = ['cfg(snacc_bridge_assertions)'] }\n"));
    let fresh = initialize_manifest("[package]\nname = \"x\"\n", "x");
    assert!(fresh.starts_with("[package]\nname = \"x\"\n\n[dependencies]\nsnacc-runtime = \"0.1\"\n\n[package.metadata.snacc]"));
}

#[test]
fn init_refuses_a_snacc_package() {
    assert_eq!(
        refuse_reinitialize("[package.metadata.snacc]\n", "/w").unwrap_err().0,
        "refusing to reinitialize existing Snacc package '/w'"
    );
    assert!(refuse_reinitialize("[package]\n", "/w").is_ok());
}

#[test]
fn init_preflight_rejects_a_custom_host() {
    assert!(check_host_template("fn main() { run_custom_host(); }", "main.rs").is_err());
    assert!(check_host_template("fn main() {\n    println!(\"Hello, world!\");\n}\n", "main.rs").is_ok());
    assert!(check_host_template(CARGO_MAIN_TEMPLATE, "main.rs").is_ok());
    assert!(check_host_template(&format!("\n{HOST_MAIN_TEMPLATE}\n\n"), "main.rs").is_ok());
    assert_eq!(
        check_host_template("x", "src/main.rs").unwrap_err().0,
        "refusing to overwrite non-template Rust host 'src/main.rs'"
    );
}

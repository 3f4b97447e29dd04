//! The command-line tools' pure decisions: arguments, dispatch, diagnostics,
//! bridge assertions, positions, output capture and tokens.

use snacc_compiler::bridge::{render_bridge_assertions, rust_abi_result_type, rust_abi_type};
use snacc_compiler::checker::check;
use snacc_compiler::digests::{hex_string, session_token, sha256};
use snacc_compiler::tools::{
    capture_stream, constant_time_eq, declares_bridge_assertion_include, diagnostic_error, line_column,
    parse_cli, parse_options, position, reject_extra, run, split_commas, Command, UNKNOWN_ERROR,
};
use snacc_compiler::types::Ty;
use snacc_compiler::{parse, Diagnostic, DiagnosticPhase, Diagnostics};

const ABI_VERSION: u32 = 3;

fn strings(values: &[&str]) -> Vec<String> {
    values.iter().map(|value| (*value).to_string()).collect()
}

fn checked(source: &str) -> snacc_compiler::checker::Program {
    let program = parse(source).unwrap_or_else(|d| panic!("{source} should parse: {d:?}"));
    check(&program).unwrap_or_else(|f| panic!("{source} should check: {f:?}"))
}

fn render(source: &str) -> String {
    render_bridge_assertions(&checked(source), "src/main.nrs", source, ABI_VERSION)
}

#[test]
fn options_reject_conflicting_profiles() {
    let args = strings(&["--release", "--profile", "dev"]);
    assert!(parse_options(&args).is_err());
}

#[test]
fn cargo_external_subcommand_prefix_is_accepted() {
    let error = run(strings(&["snacc", "unknown"])).unwrap_err();
    assert_eq!(error.0, "unknown command 'unknown'");
}

#[test]
fn options_preserve_arguments_after_separator() {
    let args = strings(&["--offline", "--", "one", "two"]);
    let parsed = parse_options(&args).unwrap();
    assert!(parsed.options.offline);
    assert_eq!(parsed.trailing, ["one", "two"]);
}

#[test]
fn declares_bridge_assertion_include_requires_the_exact_pair() {
    assert!(declares_bridge_assertion_include(
        "mod interop;\n\n#[cfg(snacc_bridge_assertions)]\ninclude!(env!(\"SNACC_BRIDGE_ASSERTIONS\"));\n"
    ));
    assert!(!declares_bridge_assertion_include("mod interop;\n"));
    assert!(!declares_bridge_assertion_include("#[cfg(snacc_bridge_assertions)]\nfn unrelated() {}\n"));
}

#[test]
fn diagnostic_rendering_preserves_all_messages_and_locations() {
    let diagnostics = Diagnostics {
        items: vec![
            Diagnostic { phase: DiagnosticPhase::TypeCheck, message: "first".into(), span: Some(0..1) },
            Diagnostic { phase: DiagnosticPhase::TypeCheck, message: "second".into(), span: Some(2..3) },
        ],
    };
    let rendered = diagnostic_error("main.nrs", "x\ny", &diagnostics).0;
    assert!(rendered.contains("main.nrs:1:1: TypeCheck error: first"));
    assert!(rendered.contains("main.nrs:2:1: TypeCheck error: second"));
}

#[test]
fn diagnostic_rendering_is_one_line_per_diagnostic_and_omits_missing_spans() {
    let diagnostics = Diagnostics {
        items: vec![
            Diagnostic { phase: DiagnosticPhase::Parse, message: "a".into(), span: Some(4..5) },
            Diagnostic { phase: DiagnosticPhase::Internal, message: "b".into(), span: None },
        ],
    };
    let rendered = diagnostic_error("m.nrs", "ab\ncd", &diagnostics).0;
    assert_eq!(rendered, "m.nrs:2:2: Parse error: a\nm.nrs: Internal error: b");
    let empty = diagnostic_error("m.nrs", "", &Diagnostics { items: Vec::new() }).0;
    assert_eq!(empty, "Snacc compilation failed without a diagnostic");
}

#[test]
fn rendered_assertions_are_sorted_by_bridge_name_and_map_types() {
    let source = "extern rust \"snacc_user_zeta\" fun zeta(value: Bool): Bool\nextern rust \"snacc_user_alpha\" fun alpha(a: Int64, b: Dec64): Bool\nprint(0)\n";
    let rendered = render(source);
    let alpha_line = rendered.lines().find(|line| line.contains("snacc_user_alpha")).expect("alpha assertion line");
    let zeta_line = rendered.lines().find(|line| line.contains("snacc_user_zeta")).expect("zeta assertion line");
    assert!(rendered.find(alpha_line).unwrap() < rendered.find(zeta_line).unwrap());
    assert!(alpha_line.contains("fn(i64, f64) -> u8"));
    assert!(alpha_line.contains("crate::interop::snacc_user_alpha"));
    assert!(alpha_line.contains("// snacc: alpha (src/main.nrs:2:1)"));
    assert!(zeta_line.contains("fn(u8) -> u8"));
    assert!(zeta_line.contains("// snacc: zeta (src/main.nrs:1:1)"));
}

#[test]
fn render_bridge_assertions_maps_every_new_scalar_type() {
    let source = "extern rust \"snacc_user_u8\" fun echo_u8(value: UInt8): UInt8\nextern rust \"snacc_user_u16\" fun echo_u16(value: UInt16): UInt16\nextern rust \"snacc_user_u32\" fun echo_u32(value: UInt32): UInt32\nextern rust \"snacc_user_u64\" fun echo_u64(value: UInt64): UInt64\nextern rust \"snacc_user_f32\" fun echo_f32(value: Float32): Float32\nprint(0)\n";
    let rendered = render(source);
    for (symbol, mapping) in [
        ("snacc_user_u8", "fn(u8) -> u8"),
        ("snacc_user_u16", "fn(u16) -> u16"),
        ("snacc_user_u32", "fn(u32) -> u32"),
        ("snacc_user_u64", "fn(u64) -> u64"),
        ("snacc_user_f32", "fn(f32) -> f32"),
    ] {
        let line = rendered
            .lines()
            .find(|line| line.contains(symbol))
            .unwrap_or_else(|| panic!("assertion line for {symbol} was not rendered"));
        assert!(line.contains(mapping), "{symbol} should render '{mapping}', got: {line}");
    }
}

#[test]
fn render_bridge_assertions_with_no_externs_still_checks_the_abi_version() {
    let rendered = render("print(0)\n");
    assert!(rendered.starts_with("// Generated by cargo-snacc"));
    assert!(rendered.contains(&format!(
        "const _: () = assert!(snacc_runtime::ABI_VERSION == {}, \"snacc compiler/runtime ABI version mismatch\");",
        ABI_VERSION
    )));
    assert!(!rendered.contains("crate::interop::"));
}

#[test]
fn render_bridge_assertions_is_deterministic() {
    let source = "extern rust \"snacc_user_a\" fun a(): Int64\nprint(0)\n";
    assert_eq!(render(source), render(source));
}

#[test]
fn a_bridge_without_a_result_asserts_a_unit_result() {
    let rendered = render("extern rust \"snacc_user_log\" fun log(value: Int64)\nprint(0)\n");
    assert!(rendered.contains(
        "const _: unsafe extern \"C\" fn(i64) -> () = crate::interop::snacc_user_log; // snacc: log (src/main.nrs:1:1)\n"
    ));
}

#[test]
fn abi_types_follow_the_bridge_mapping() {
    assert_eq!(rust_abi_type(Ty::Int64), "i64");
    assert_eq!(rust_abi_type(Ty::Dec64), "f64");
    assert_eq!(rust_abi_type(Ty::Bool), "u8");
    assert_eq!(rust_abi_type(Ty::Nil), "u8");
    assert_eq!(rust_abi_type(Ty::UInt16), "u16");
    assert_eq!(rust_abi_type(Ty::Float32), "f32");
    assert_eq!(rust_abi_result_type(None), "()");
    assert_eq!(rust_abi_result_type(Some(Ty::UInt64)), "u64");
}

#[test]
fn positions_are_one_based_and_use_exact_source_bytes() {
    let source = "α\nprint(1)";
    assert_eq!(position(source, 0).line, 1);
    assert_eq!(position(source, 2).line, 1);
    assert_eq!(position(source, 3).line, 2);
    assert_eq!(position(source, source.len()).column, 9);
}

#[test]
fn line_column_moves_back_to_a_character_boundary() {
    let source = "α\nβx";
    assert_eq!(line_column(source, 1), (1, 1));
    assert_eq!(line_column(source, 4), (2, 1));
    assert_eq!(line_column(source, 5), (2, 2));
    assert_eq!(line_column(source, 100), (2, 3));
}

#[test]
fn capture_stream_bounds_output_and_continues_draining() {
    let chunks = vec![b"ab".to_vec(), b"cd".to_vec(), b"ef".to_vec()];
    let captured = capture_stream(&chunks, 3);
    assert_eq!(captured.bytes, b"abc");
    assert!(captured.truncated);
    let whole = capture_stream(&chunks, 6);
    assert_eq!(whole.bytes, b"abcdef");
    assert!(!whole.truncated);
}

#[test]
fn constant_time_eq_matches_naive_equality() {
    assert!(constant_time_eq("same-token", "same-token"));
    assert!(!constant_time_eq("token-a", "token-b"));
    assert!(!constant_time_eq("short", "longer-value"));
    assert!(constant_time_eq("", ""));
}

#[test]
fn unknown_error_is_the_root_compiler_bug_message() {
    assert_eq!(UNKNOWN_ERROR, "Unknown Error - you have found a bug in the compiler");
}

#[test]
fn parses_one_input_and_output() {
    let cli = parse_cli(strings(&["program.nrs", "-o", "program.exe"])).unwrap();
    assert_eq!(cli.input, "program.nrs");
    assert_eq!(cli.output.as_deref(), Some("program.exe"));
}

#[test]
fn rejects_invalid_arguments() {
    assert_eq!(parse_cli(strings(&["--unknown", "program.nrs"])).err().unwrap(), "unknown option '--unknown'");
    assert!(parse_cli(strings(&["first.nrs", "second.nrs"])).is_err());
    assert!(parse_cli(strings(&["program.nrs", "-o"])).is_err());
    assert!(parse_cli(strings(&["program.nrs", "-o", "a", "-o", "b"])).is_err());
}

#[test]
fn cli_errors_name_each_refusal() {
    assert_eq!(parse_cli(strings(&[])).err().unwrap(), "no input file was provided");
    assert_eq!(parse_cli(strings(&["a", "b"])).err().unwrap(), "only one input file may be provided");
    assert_eq!(parse_cli(strings(&["a", "-o", "-x"])).err().unwrap(), "option '-o' requires an output path");
    assert_eq!(
        parse_cli(strings(&["-o", "x", "-o", "y"])).err().unwrap(),
        "option '-o' was provided more than once"
    );
    let cli = parse_cli(strings(&["-o", "out", "in.nrs"])).unwrap();
    assert_eq!(cli.input, "in.nrs");
    assert_eq!(cli.output.as_deref(), Some("out"));
}

#[test]
fn options_read_every_flag_and_value() {
    let args = strings(&[
        "--package", "app", "--features", "a,b,,c", "--all-features", "--no-default-features", "--locked",
        "--frozen", "--all", "-v", "pos", "--profile", "release",
    ]);
    let parsed = parse_options(&args).unwrap();
    let o = &parsed.options;
    assert_eq!(o.package.as_deref(), Some("app"));
    assert_eq!(o.features, ["a", "b", "", "c"]);
    assert!(o.all_features && o.no_default_features && o.locked && o.frozen && o.all && o.verbose);
    assert!(!o.release && !o.offline);
    assert_eq!(o.profile.as_deref(), Some("release"));
    assert_eq!(parsed.positionals, ["pos"]);
    assert!(parsed.trailing.is_empty());
}

#[test]
fn option_errors_name_the_option() {
    assert_eq!(parse_options(&strings(&["--package"])).err().unwrap().0, "--package requires a value");
    assert_eq!(parse_options(&strings(&["--profile", "-x"])).err().unwrap().0, "--profile requires a profile name");
    assert_eq!(parse_options(&strings(&["--features", "--"])).err().unwrap().0, "--features requires a feature list");
    assert_eq!(parse_options(&strings(&["--bogus"])).err().unwrap().0, "unknown option '--bogus'");
    assert_eq!(
        parse_options(&strings(&["--profile", "bench"])).err().unwrap().0,
        "unsupported Cargo profile 'bench'"
    );
    assert_eq!(
        parse_options(&strings(&["--release", "--profile", "release"])).err().unwrap().0,
        "--release and --profile are mutually exclusive"
    );
    let parsed = parse_options(&strings(&["--", "--release"])).unwrap();
    assert!(!parsed.options.release, "what follows '--' is not an option");
    assert_eq!(parsed.trailing, ["--release"]);
}

#[test]
fn reject_extra_names_the_first_stray_argument() {
    let parsed = parse_options(&strings(&["one", "two"])).unwrap();
    assert_eq!(reject_extra(&parsed, "check").unwrap_err().0, "unexpected check argument 'one'");
    let parsed = parse_options(&strings(&["--", "x"])).unwrap();
    assert_eq!(reject_extra(&parsed, "clean").unwrap_err().0, "clean does not accept arguments after '--'");
    let parsed = parse_options(&strings(&["--offline"])).unwrap();
    assert!(reject_extra(&parsed, "check").is_ok());
}

#[test]
fn split_commas_keeps_every_part() {
    assert_eq!(split_commas(&"a,b".to_string()), ["a", "b"]);
    assert_eq!(split_commas(&"".to_string()), [""]);
    assert_eq!(split_commas(&",x,".to_string()), ["", "x", ""]);
}

#[test]
fn run_dispatches_every_command_with_its_arguments() {
    let d = run(strings(&["build", "--release"])).unwrap();
    assert_eq!(d.command, Command::Build);
    assert_eq!(d.args, ["--release"]);
    let d = run(strings(&["snacc", "doctor"])).unwrap();
    assert_eq!(d.command, Command::Doctor);
    assert!(d.args.is_empty());
    assert_eq!(
        run(strings(&[])).unwrap_err().0,
        "expected one of init, check, build, run, test, clean, doctor"
    );
    assert_eq!(
        run(strings(&["snacc"])).unwrap_err().0,
        "expected one of init, check, build, run, test, clean, doctor"
    );
}

#[test]
fn sha256_gives_the_known_digests() {
    assert_eq!(sha256(b"abc"), "ba7816bf8f01cfea414140de5dae2223b00361a396177a9cb410ff61f20015ad");
    assert_eq!(sha256(b""), "e3b0c44298fc1c149afbf4c8996fb92427ae41e4649b934ca495991b7852b855");
}

#[test]
fn hex_spells_two_lowercase_digits_per_byte() {
    assert_eq!(hex_string(&[0x00, 0x0f, 0xa0, 0xff]), "000fa0ff");
    assert_eq!(hex_string(&[]), "");
}

#[test]
fn session_tokens_are_sixty_four_hex_digits_and_differ() {
    let first = session_token().expect("random bytes are available");
    let second = session_token().expect("random bytes are available");
    assert_eq!(first.len(), 64);
    assert!(first.chars().all(|c| c.is_ascii_hexdigit() && !c.is_ascii_uppercase()));
    assert_ne!(first, second);
}

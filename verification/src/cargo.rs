//! The decisions of the Cargo-hosted tool: which Cargo arguments the options
//! forward, what each command accepts, which package, target and artifact
//! are meant, and how `init` edits a package. Running Cargo, reading
//! metadata and touching files stay with the program.

use vstd::prelude::*;
use crate::text::{owned, push_str, push_string, string_is};
use crate::tools::{CliError, Options, OptionsView, ParsedOptions, texts};

verus! {

/// Texts joined with `,` between them, as `[String]::join(",")` gives them.
pub open spec fn comma_join(parts: Seq<Seq<char>>) -> Seq<char>
    decreases parts.len(),
{
    if parts.len() == 0 {
        Seq::empty()
    } else if parts.len() == 1 {
        parts[0]
    } else {
        comma_join(parts.drop_last()) + ","@ + parts.last()
    }
}

/// Joins texts with `,`.
pub fn join_commas(parts: &Vec<String>) -> (r: String)
    ensures
        r@ == comma_join(texts(parts@)),
{
    let mut r = String::new();
    let mut i: usize = 0;
    while i < parts.len()
        invariant
            i <= parts@.len(),
            r@ == comma_join(texts(parts@.take(i as int))),
        decreases parts@.len() - i,
    {
        proof {
            assert(texts(parts@.take(i + 1)).drop_last() =~= texts(parts@.take(i as int)));
            assert(texts(parts@.take(i + 1)).last() == parts@[i as int]@);
        }
        let ghost before = r@;
        if i > 0 {
            push_str(&mut r, ",");
        }
        push_string(&mut r, &parts[i]);
        proof {
            if i == 0 {
                assert(r@ =~= comma_join(texts(parts@.take(1))));
            }
        }
        i = i + 1;
    }
    proof { assert(parts@.take(i as int) =~= parts@); }
    r
}

/// An argument that is there only when a flag is set.
pub open spec fn flag_arg(on: bool, arg: Seq<char>) -> Seq<Seq<char>> {
    if on { seq![arg] } else { Seq::empty() }
}

/// The Cargo arguments the options forward, in order: the profile ones
/// where `with_profile` holds (the build commands), then the feature and
/// lock flags (every command, `cargo metadata` included).
pub open spec fn forwarded_args(o: OptionsView, with_profile: bool) -> Seq<Seq<char>> {
    (if with_profile {
        flag_arg(o.release, "--release"@) + match o.profile {
            Some(p) => seq!["--profile"@, p],
            None => Seq::empty(),
        }
    } else {
        Seq::empty()
    })
        + flag_arg(o.all_features, "--all-features"@)
        + flag_arg(o.no_default_features, "--no-default-features"@)
        + (if o.features.len() > 0 { seq!["--features"@, comma_join(o.features)] } else { Seq::empty() })
        + flag_arg(o.locked, "--locked"@)
        + flag_arg(o.frozen, "--frozen"@)
        + flag_arg(o.offline, "--offline"@)
}

/// A sequence joined from two holds what either part holds.
proof fn lemma_concat_contains(a: Seq<Seq<char>>, b: Seq<Seq<char>>, x: Seq<char>)
    ensures
        (a + b).contains(x) <==> (a.contains(x) || b.contains(x)),
{
    if a.contains(x) {
        let k = choose|k: int| 0 <= k < a.len() && a[k] == x;
        assert((a + b)[k] == x);
    }
    if b.contains(x) {
        let k = choose|k: int| 0 <= k < b.len() && b[k] == x;
        assert((a + b)[a.len() + k] == x);
    }
    if (a + b).contains(x) {
        let k = choose|k: int| 0 <= k < (a + b).len() && (a + b)[k] == x;
        if k < a.len() {
            assert(a[k] == x);
        } else {
            assert(b[k - a.len()] == x);
        }
    }
}

/// Each option is forwarded to Cargo as its own flag: the forwarded
/// arguments hold `--locked` exactly when `--locked` was given, and so on
/// for `--frozen`, `--offline`, `--all-features` and
/// `--no-default-features`; `--release` is forwarded exactly when it was
/// given and the command builds. Option values are never dashed.
pub proof fn law_forwarded_flags(o: OptionsView, with_profile: bool)
    requires
        o.profile matches Some(p) ==> !crate::tools::dashed(p),
        o.features.len() > 0 ==> !crate::tools::dashed(comma_join(o.features)),
    ensures
        forwarded_args(o, with_profile).contains("--locked"@) <==> o.locked,
        forwarded_args(o, with_profile).contains("--frozen"@) <==> o.frozen,
        forwarded_args(o, with_profile).contains("--offline"@) <==> o.offline,
        forwarded_args(o, with_profile).contains("--all-features"@) <==> o.all_features,
        forwarded_args(o, with_profile).contains("--no-default-features"@) <==> o.no_default_features,
        forwarded_args(o, with_profile).contains("--release"@) <==> (with_profile && o.release),
{
    crate::tools::lemma_option_words();
    let words = seq!["--locked"@, "--frozen"@, "--offline"@, "--all-features"@, "--no-default-features"@, "--release"@];
    let prof = if with_profile {
        flag_arg(o.release, "--release"@) + match o.profile {
            Some(p) => seq!["--profile"@, p],
            None => Seq::empty(),
        }
    } else {
        Seq::<Seq<char>>::empty()
    };
    let feats = if o.features.len() > 0 { seq!["--features"@, comma_join(o.features)] } else { Seq::<Seq<char>>::empty() };
    let pp = match o.profile {
        Some(p) => seq!["--profile"@, p],
        None => Seq::<Seq<char>>::empty(),
    };
    let p1 = prof + flag_arg(o.all_features, "--all-features"@);
    let p2 = p1 + flag_arg(o.no_default_features, "--no-default-features"@);
    let p3 = p2 + feats;
    let p4 = p3 + flag_arg(o.locked, "--locked"@);
    let p5 = p4 + flag_arg(o.frozen, "--frozen"@);
    assert(forwarded_args(o, with_profile) == p5 + flag_arg(o.offline, "--offline"@));
    assert forall|k: int| 0 <= k < words.len() implies {
        let x = #[trigger] words[k];
        &&& !pp.contains(x)
        &&& !feats.contains(x)
        &&& flag_arg(o.release, "--release"@).contains(x) <==> (o.release && x == "--release"@)
        &&& flag_arg(o.all_features, "--all-features"@).contains(x) <==> (o.all_features && x == "--all-features"@)
        &&& flag_arg(o.no_default_features, "--no-default-features"@).contains(x) <==> (o.no_default_features && x == "--no-default-features"@)
        &&& flag_arg(o.locked, "--locked"@).contains(x) <==> (o.locked && x == "--locked"@)
        &&& flag_arg(o.frozen, "--frozen"@).contains(x) <==> (o.frozen && x == "--frozen"@)
        &&& flag_arg(o.offline, "--offline"@).contains(x) <==> (o.offline && x == "--offline"@)
        &&& (with_profile ==> prof == flag_arg(o.release, "--release"@) + pp)
        &&& (!with_profile ==> !prof.contains(x))
    } by {
        let x = words[k];
        assert(crate::tools::dashed(x));
        if pp.contains(x) {
            let j = choose|j: int| 0 <= j < pp.len() && pp[j] == x;
            if j == 1 {
                assert(pp[1] == o.profile.unwrap());
            }
        }
        if feats.contains(x) {
            let j = choose|j: int| 0 <= j < feats.len() && feats[j] == x;
            if j == 1 {
                assert(feats[1] == comma_join(o.features));
            }
        }
        if flag_arg(o.release, "--release"@).contains(x) {
            let j = choose|j: int| 0 <= j < flag_arg(o.release, "--release"@).len() && flag_arg(o.release, "--release"@)[j] == x;
        }
        if o.release && x == "--release"@ {
            assert(flag_arg(o.release, "--release"@)[0] == x);
        }
        if flag_arg(o.all_features, "--all-features"@).contains(x) {
            let j = choose|j: int| 0 <= j < flag_arg(o.all_features, "--all-features"@).len() && flag_arg(o.all_features, "--all-features"@)[j] == x;
        }
        if o.all_features && x == "--all-features"@ {
            assert(flag_arg(o.all_features, "--all-features"@)[0] == x);
        }
        if flag_arg(o.no_default_features, "--no-default-features"@).contains(x) {
            let j = choose|j: int| 0 <= j < flag_arg(o.no_default_features, "--no-default-features"@).len() && flag_arg(o.no_default_features, "--no-default-features"@)[j] == x;
        }
        if o.no_default_features && x == "--no-default-features"@ {
            assert(flag_arg(o.no_default_features, "--no-default-features"@)[0] == x);
        }
        if flag_arg(o.locked, "--locked"@).contains(x) {
            let j = choose|j: int| 0 <= j < flag_arg(o.locked, "--locked"@).len() && flag_arg(o.locked, "--locked"@)[j] == x;
        }
        if o.locked && x == "--locked"@ {
            assert(flag_arg(o.locked, "--locked"@)[0] == x);
        }
        if flag_arg(o.frozen, "--frozen"@).contains(x) {
            let j = choose|j: int| 0 <= j < flag_arg(o.frozen, "--frozen"@).len() && flag_arg(o.frozen, "--frozen"@)[j] == x;
        }
        if o.frozen && x == "--frozen"@ {
            assert(flag_arg(o.frozen, "--frozen"@)[0] == x);
        }
        if flag_arg(o.offline, "--offline"@).contains(x) {
            let j = choose|j: int| 0 <= j < flag_arg(o.offline, "--offline"@).len() && flag_arg(o.offline, "--offline"@)[j] == x;
        }
        if o.offline && x == "--offline"@ {
            assert(flag_arg(o.offline, "--offline"@)[0] == x);
        }
    }
    assert forall|k: int| 0 <= k < words.len() implies
        (forwarded_args(o, with_profile).contains(#[trigger] words[k]) <==> (
            (with_profile && o.release && words[k] == "--release"@)
            || (o.all_features && words[k] == "--all-features"@)
            || (o.no_default_features && words[k] == "--no-default-features"@)
            || (o.locked && words[k] == "--locked"@)
            || (o.frozen && words[k] == "--frozen"@)
            || (o.offline && words[k] == "--offline"@))) by {
        let x = words[k];
        if with_profile {
            lemma_concat_contains(flag_arg(o.release, "--release"@), pp, x);
        }
        lemma_concat_contains(prof, flag_arg(o.all_features, "--all-features"@), x);
        lemma_concat_contains(p1, flag_arg(o.no_default_features, "--no-default-features"@), x);
        lemma_concat_contains(p2, feats, x);
        lemma_concat_contains(p3, flag_arg(o.locked, "--locked"@), x);
        lemma_concat_contains(p4, flag_arg(o.frozen, "--frozen"@), x);
        lemma_concat_contains(p5, flag_arg(o.offline, "--offline"@), x);
    }
    assert(words[0] == "--locked"@);
    assert(words[1] == "--frozen"@);
    assert(words[2] == "--offline"@);
    assert(words[3] == "--all-features"@);
    assert(words[4] == "--no-default-features"@);
    assert(words[5] == "--release"@);
}

fn push_flag(args: &mut Vec<String>, on: bool, arg: &str)
    ensures
        texts(final(args)@) == texts(old(args)@) + flag_arg(on, arg@),
{
    let ghost before = texts(args@);
    if on {
        args.push(owned(arg));
        proof { assert(texts(args@) =~= before + seq![arg@]); }
    } else {
        proof { assert(texts(args@) =~= before + Seq::<Seq<char>>::empty()); }
    }
}

/// The Cargo arguments the options forward.
pub fn forwarded(options: &Options, with_profile: bool) -> (args: Vec<String>)
    ensures
        texts(args@) == forwarded_args(options@, with_profile),
{
    let mut args: Vec<String> = Vec::new();
    let ghost o = options@;
    proof { assert(texts(args@) =~= Seq::<Seq<char>>::empty()); }
    if with_profile {
        push_flag(&mut args, options.release, "--release");
        let ghost after_release = texts(args@);
        if let Some(profile) = &options.profile {
            args.push(owned("--profile"));
            args.push(profile.clone());
            proof { assert(texts(args@) =~= after_release + seq!["--profile"@, profile@]); }
        } else {
            proof { assert(texts(args@) =~= after_release + Seq::<Seq<char>>::empty()); }
        }
    }
    let ghost head = texts(args@);
    push_flag(&mut args, options.all_features, "--all-features");
    push_flag(&mut args, options.no_default_features, "--no-default-features");
    let ghost before_features = texts(args@);
    if options.features.len() > 0 {
        args.push(owned("--features"));
        let joined = join_commas(&options.features);
        args.push(joined);
        proof {
            assert(texts(options.features@) == o.features);
            assert(texts(args@) =~= before_features + seq!["--features"@, comma_join(o.features)]);
        }
    } else {
        proof {
            assert(o.features.len() == 0);
            assert(texts(args@) =~= before_features + Seq::<Seq<char>>::empty());
        }
    }
    push_flag(&mut args, options.locked, "--locked");
    push_flag(&mut args, options.frozen, "--frozen");
    push_flag(&mut args, options.offline, "--offline");
    proof {
        assert(texts(args@) =~= forwarded_args(o, with_profile));
    }
    args
}

/// `check` has no profile of its own.
pub fn check_options(options: &Options) -> (r: Result<(), CliError>)
    ensures
        r is Ok <==> !options.release && options.profile is None,
        r matches Err(e) ==> e.0@
            == "check does not support --release or --profile; use build --release to check in release mode"@,
{
    if options.release || options.profile.is_some() {
        return Err(CliError(owned(
            "check does not support --release or --profile; use build --release to check in release mode",
        )));
    }
    Ok(())
}

/// `build` and `run` take no positional argument; only `run` passes on what
/// follows `--`, to the program.
pub fn build_arguments(parsed: &ParsedOptions, run_program: bool) -> (r: Result<(), CliError>)
    ensures
        r is Ok <==> parsed.positionals@.len() == 0 && (run_program || parsed.trailing@.len() == 0),
        parsed.positionals@.len() > 0 ==> (r matches Err(e) && e.0@ == "unexpected argument '"@ + parsed.positionals@[0]@ + "'"@),
        parsed.positionals@.len() == 0 && !run_program && parsed.trailing@.len() > 0
            ==> (r matches Err(e) && e.0@ == "build does not accept arguments after '--'"@),
{
    if parsed.positionals.len() > 0 {
        return Err(CliError(crate::text::concat3("unexpected argument '", &parsed.positionals[0], "'")));
    }
    if !run_program && parsed.trailing.len() > 0 {
        return Err(CliError(owned("build does not accept arguments after '--'")));
    }
    Ok(())
}

/// `test` takes at most one filter.
pub fn test_filter(parsed: &ParsedOptions) -> (r: Result<Option<String>, CliError>)
    ensures
        match r {
            Ok(None) => parsed.positionals@.len() == 0,
            Ok(Some(f)) => parsed.positionals@.len() == 1 && f@ == parsed.positionals@[0]@,
            Err(e) => parsed.positionals@.len() > 1 && e.0@ == "test accepts at most one filter"@,
        },
{
    if parsed.positionals.len() > 1 {
        return Err(CliError(owned("test accepts at most one filter")));
    }
    if parsed.positionals.len() == 1 {
        Ok(Some(parsed.positionals[0].clone()))
    } else {
        Ok(None)
    }
}

} // verus!

verus! {

/// The first index in `names` holding `name`.
pub open spec fn first_named(names: Seq<Seq<char>>, name: Seq<char>, k: int) -> bool {
    &&& 0 <= k < names.len()
    &&& names[k] == name
    &&& forall|j: int| 0 <= j < k ==> names[j] != name
}

/// The package asked for by name: the first of that name in the metadata.
pub fn select_named_package(names: &Vec<String>, requested: &str) -> (r: Result<usize, CliError>)
    ensures
        match r {
            Ok(k) => first_named(texts(names@), requested@, k as int),
            Err(e) => (forall|j: int| 0 <= j < names@.len() ==> (#[trigger] names@[j])@ != requested@)
                && e.0@ == "package '"@ + requested@ + "' was not found"@,
        },
{
    let mut i: usize = 0;
    while i < names.len()
        invariant
            i <= names@.len(),
            forall|j: int| 0 <= j < i ==> (#[trigger] names@[j])@ != requested@,
        decreases names@.len() - i,
    {
        if string_is(&names[i], requested) {
            return Ok(i);
        }
        i = i + 1;
    }
    let mut m = owned("package '");
    push_str(&mut m, requested);
    push_str(&mut m, "' was not found");
    Err(CliError(m))
}

/// How many flags are set.
pub open spec fn count_set(flags: Seq<bool>) -> nat
    decreases flags.len(),
{
    if flags.len() == 0 {
        0
    } else {
        count_set(flags.drop_last()) + if flags.last() { 1nat } else { 0nat }
    }
}

/// The package of the current directory: the one whose root it is, or else
/// the only one whose root contains it; `containing` marks the packages
/// whose root contains the current directory.
pub fn select_by_directory(exact: Option<usize>, containing: &Vec<bool>) -> (r: Result<usize, CliError>)
    ensures
        match exact {
            Some(k) => r == Ok::<usize, CliError>(k),
            None => match r {
                Ok(k) => count_set(containing@) == 1 && k < containing@.len() && containing@[k as int],
                Err(e) => count_set(containing@) != 1 && e.0@ == "package selection is ambiguous; use --package"@,
            },
        },
{
    if let Some(k) = exact {
        return Ok(k);
    }
    let mut count: usize = 0;
    let mut found: usize = 0;
    let mut i: usize = 0;
    while i < containing.len()
        invariant
            i <= containing@.len(),
            count == count_set(containing@.take(i as int)),
            count <= i,
            count > 0 ==> found < i && containing@[found as int],
        decreases containing@.len() - i,
    {
        proof {
            assert(containing@.take(i + 1).drop_last() =~= containing@.take(i as int));
        }
        if containing[i] {
            found = i;
            count = count + 1;
        }
        i = i + 1;
    }
    proof { assert(containing@.take(i as int) =~= containing@); }
    if count != 1 {
        return Err(CliError(owned("package selection is ambiguous; use --package")));
    }
    Ok(found)
}

/// `package.metadata.snacc` has one schema.
pub fn check_schema(version: u32) -> (r: Result<(), CliError>)
    ensures
        r is Ok <==> version == 1,
        r matches Err(e) ==> e.0@ == "unsupported package.metadata.snacc schema-version "@ + crate::text::decimal(version as nat),
{
    if version != 1 {
        let mut m = owned("unsupported package.metadata.snacc schema-version ");
        crate::text::push_decimal(&mut m, version as u64);
        return Err(CliError(m));
    }
    Ok(())
}

/// A build target as Cargo metadata lists it.
#[derive(Debug)]
pub struct TargetInfo {
    pub name: String,
    pub kind: Vec<String>,
}

/// Whether a target is the binary named `host`.
pub open spec fn is_host_target(t: TargetInfo, host: Seq<char>) -> bool {
    t.name@ == host && texts(t.kind@).contains("bin"@)
}

/// The targets that are the binary named `host`, in order.
pub open spec fn host_targets(ts: Seq<TargetInfo>, host: Seq<char>) -> Seq<int>
    decreases ts.len(),
{
    if ts.len() == 0 {
        Seq::empty()
    } else if is_host_target(ts.last(), host) {
        host_targets(ts.drop_last(), host).push(ts.len() - 1)
    } else {
        host_targets(ts.drop_last(), host)
    }
}

fn has_kind(kinds: &Vec<String>, kind: &str) -> (r: bool)
    ensures
        r == texts(kinds@).contains(kind@),
{
    let mut i: usize = 0;
    while i < kinds.len()
        invariant
            i <= kinds@.len(),
            forall|j: int| 0 <= j < i ==> (#[trigger] kinds@[j])@ != kind@,
        decreases kinds@.len() - i,
    {
        if string_is(&kinds[i], kind) {
            proof { assert(texts(kinds@)[i as int] == kind@); }
            return true;
        }
        i = i + 1;
    }
    proof {
        assert forall|j: int| 0 <= j < texts(kinds@).len() implies texts(kinds@)[j] != kind@ by {
            assert(texts(kinds@)[j] == kinds@[j]@);
        }
    }
    false
}

/// The host binary's target: there must be exactly one binary target of
/// that name.
pub fn host_target(targets: &Vec<TargetInfo>, host: &str) -> (r: Result<usize, CliError>)
    ensures
        match r {
            Ok(k) => host_targets(targets@, host@) == seq![k as int],
            Err(e) => host_targets(targets@, host@).len() != 1
                && e.0@ == "host binary '"@ + host@ + "' does not resolve to exactly one binary target"@,
        },
{
    let mut matches: Vec<usize> = Vec::new();
    let mut i: usize = 0;
    while i < targets.len()
        invariant
            i <= targets@.len(),
            matches@.map_values(|k: usize| k as int) == host_targets(targets@.take(i as int), host@),
        decreases targets@.len() - i,
    {
        proof {
            assert(targets@.take(i + 1).drop_last() =~= targets@.take(i as int));
            assert(targets@.take(i + 1).last() == targets@[i as int]);
        }
        let t = &targets[i];
        if string_is(&t.name, host) && has_kind(&t.kind, "bin") {
            let ghost before = matches@;
            matches.push(i);
            proof {
                assert(matches@.map_values(|k: usize| k as int) =~= before.map_values(|k: usize| k as int).push(i as int));
            }
        }
        i = i + 1;
    }
    proof { assert(targets@.take(i as int) =~= targets@); }
    if matches.len() != 1 {
        let mut m = owned("host binary '");
        push_str(&mut m, host);
        push_str(&mut m, "' does not resolve to exactly one binary target");
        return Err(CliError(m));
    }
    proof {
        assert(matches@.map_values(|k: usize| k as int)[0] == matches@[0] as int);
        assert(host_targets(targets@, host@) =~= seq![matches@[0] as int]);
    }
    Ok(matches[0])
}

/// One line of Cargo's JSON messages, by the fields an artifact is chosen on.
#[derive(Debug)]
pub struct ArtifactMessage {
    pub reason: Option<String>,
    pub package_id: Option<String>,
    pub target_name: Option<String>,
    pub target_kinds: Option<Vec<String>>,
    pub executable: Option<String>,
}

/// Whether a message announces the artifact of this package's target of
/// this name and kind.
pub open spec fn announces(m: ArtifactMessage, package_id: Seq<char>, name: Seq<char>, kind: Seq<char>) -> bool {
    &&& m.reason matches Some(r) && r@ == "compiler-artifact"@
    &&& m.package_id matches Some(p) && p@ == package_id
    &&& m.target_name matches Some(n) && n@ == name
    &&& m.target_kinds matches Some(ks) && texts(ks@).contains(kind)
}

fn is_text(o: &Option<String>, expected: &str) -> (r: bool)
    ensures
        r == (o matches Some(s) && s@ == expected@),
{
    match o {
        Some(s) => string_is(s, expected),
        None => false,
    }
}

/// The executable of the first message that announces the wanted artifact;
/// none where no message does, or where that message names no executable.
pub fn executable_of(messages: &Vec<ArtifactMessage>, package_id: &str, name: &str, kind: &str) -> (r: Option<String>)
    ensures
        match r {
            Some(e) => exists|k: int| 0 <= k < messages@.len() && announces(#[trigger] messages@[k], package_id@, name@, kind@)
                && (forall|j: int| 0 <= j < k ==> !announces(#[trigger] messages@[j], package_id@, name@, kind@))
                && messages@[k].executable == Some(e),
            None => forall|k: int| 0 <= k < messages@.len() && announces(#[trigger] messages@[k], package_id@, name@, kind@)
                ==> (exists|j: int| 0 <= j < k && announces(#[trigger] messages@[j], package_id@, name@, kind@))
                    || messages@[k].executable is None,
        },
{
    let mut i: usize = 0;
    while i < messages.len()
        invariant
            i <= messages@.len(),
            forall|j: int| 0 <= j < i ==> !announces(#[trigger] messages@[j], package_id@, name@, kind@),
        decreases messages@.len() - i,
    {
        let m = &messages[i];
        let kinds_match = match &m.target_kinds {
            Some(ks) => has_kind(ks, kind),
            None => false,
        };
        if is_text(&m.reason, "compiler-artifact") && is_text(&m.package_id, package_id)
            && is_text(&m.target_name, name) && kinds_match
        {
            return match &m.executable {
                Some(e) => Some(e.clone()),
                None => None,
            };
        }
        i = i + 1;
    }
    None
}

/// Texts joined with `\n- ` between them.
pub open spec fn bullet_join(parts: Seq<Seq<char>>) -> Seq<char>
    decreases parts.len(),
{
    if parts.len() == 0 {
        Seq::empty()
    } else if parts.len() == 1 {
        parts[0]
    } else {
        bullet_join(parts.drop_last()) + "\n- "@ + parts.last()
    }
}

/// The verdict of `doctor`: every problem found, as a list.
pub fn doctor_verdict(failures: &Vec<String>) -> (r: Result<(), CliError>)
    ensures
        failures@.len() == 0 <==> r is Ok,
        r matches Err(e) ==> e.0@ == "doctor found "@ + crate::text::decimal(failures@.len() as nat) + " problem(s):\n- "@
            + bullet_join(texts(failures@)),
{
    if failures.len() == 0 {
        return Ok(());
    }
    let mut m = owned("doctor found ");
    crate::text::push_count(&mut m, failures.len());
    push_str(&mut m, " problem(s):\n- ");
    let ghost head = m@;
    let mut i: usize = 0;
    while i < failures.len()
        invariant
            i <= failures@.len(),
            m@ == head + bullet_join(texts(failures@.take(i as int))),
        decreases failures@.len() - i,
    {
        proof {
            assert(texts(failures@.take(i + 1)).drop_last() =~= texts(failures@.take(i as int)));
            assert(texts(failures@.take(i + 1)).last() == failures@[i as int]@);
        }
        let ghost before = m@;
        if i > 0 {
            push_str(&mut m, "\n- ");
        }
        push_string(&mut m, &failures[i]);
        proof {
            if i == 0 {
                assert(m@ =~= head + bullet_join(texts(failures@.take(1))));
            } else {
                assert(m@ =~= head + bullet_join(texts(failures@.take(i + 1))));
            }
        }
        i = i + 1;
    }
    proof { assert(failures@.take(i as int) =~= failures@); }
    Err(CliError(m))
}

} // verus!

verus! {

/// Whether a relative path names the current directory itself: it starts
/// with `.` and every other `/`-separated segment is empty or `.`, as
/// `Path` compares it with `.`.
pub open spec fn is_current_dir(s: Seq<char>) -> bool {
    let segs = crate::tools::parts_on(s, '/');
    &&& segs[0] == "."@
    &&& forall|i: int| 1 <= i < segs.len() ==> #[trigger] segs[i] == "."@ || segs[i].len() == 0
}

/// Whether a path text names the current directory.
pub fn names_current_dir(s: &String) -> (r: bool)
    ensures
        r == is_current_dir(s@),
{
    let segs = crate::tools::split_on(s, '/');
    proof { crate::tools::lemma_parts_nonempty(s@, '/'); }
    if !string_is(&segs[0], ".") {
        return false;
    }
    let mut i: usize = 1;
    while i < segs.len()
        invariant
            1 <= i <= segs@.len(),
            segs@.len() == crate::tools::parts_on(s@, '/').len(),
            forall|k: int| 0 <= k < segs@.len() ==> (#[trigger] segs@[k])@ == crate::tools::parts_on(s@, '/')[k],
            forall|k: int| 1 <= k < i ==> #[trigger] crate::tools::parts_on(s@, '/')[k] == "."@
                || crate::tools::parts_on(s@, '/')[k].len() == 0,
        decreases segs@.len() - i,
    {
        if !string_is(&segs[i], ".") && segs[i].as_str().unicode_len() != 0 {
            return false;
        }
        i = i + 1;
    }
    true
}

/// What `init` was asked for: where, and under which package name.
#[derive(Debug)]
pub struct InitArgs {
    pub path: String,
    pub name: Option<String>,
}

/// What `init`'s arguments from `index` on give, with the path and name
/// read so far, or the message of the first one that cannot be accepted.
pub open spec fn init_outcome(args: Seq<Seq<char>>, index: int, path: Seq<char>, name: Option<Seq<char>>)
    -> Result<(Seq<char>, Option<Seq<char>>), Seq<char>>
    decreases args.len() - index,
{
    if index < 0 || index >= args.len() {
        Ok((path, name))
    } else if args[index] == "--name"@ {
        if index + 1 >= args.len() {
            Err("--name requires a value"@)
        } else {
            init_outcome(args, index + 2, path, Some(args[index + 1]))
        }
    } else if crate::tools::dashed(args[index]) {
        Err("unknown init option '"@ + args[index] + "'"@)
    } else if !is_current_dir(path) {
        Err("unexpected init argument '"@ + args[index] + "'"@)
    } else {
        init_outcome(args, index + 1, args[index], name)
    }
}

/// Reads `init [path] [--name name]`: the path defaults to the current
/// directory and may be given once.
pub fn parse_init_args(args: &Vec<String>) -> (r: Result<InitArgs, CliError>)
    ensures
        match r {
            Ok(a) => init_outcome(texts(args@), 0, "."@, None)
                == Ok::<(Seq<char>, Option<Seq<char>>), Seq<char>>((a.path@, crate::tools::text_option(a.name))),
            Err(e) => init_outcome(texts(args@), 0, "."@, None) == Err::<(Seq<char>, Option<Seq<char>>), Seq<char>>(e.0@),
        },
{
    let ghost views = texts(args@);
    let mut path = owned(".");
    let mut name: Option<String> = None;
    let mut index: usize = 0;
    while index < args.len()
        invariant
            index <= args@.len(),
            views == texts(args@),
            init_outcome(views, index as int, path@, crate::tools::text_option(name)) == init_outcome(views, 0, "."@, None),
        decreases args@.len() - index,
    {
        let arg = &args[index];
        proof { assert(views[index as int] == arg@); }
        if string_is(arg, "--name") {
            if index + 1 >= args.len() {
                return Err(CliError(owned("--name requires a value")));
            }
            let value = args[index + 1].clone();
            proof { assert(views[index + 1] == value@); }
            name = Some(value);
            index = index + 2;
        } else if crate::tools::starts_with_dash(arg) {
            return Err(CliError(crate::text::concat3("unknown init option '", arg, "'")));
        } else if !names_current_dir(&path) {
            return Err(CliError(crate::text::concat3("unexpected init argument '", arg, "'")));
        } else {
            path = arg.clone();
            index = index + 1;
        }
    }
    Ok(InitArgs { path, name })
}

/// Where `w` first occurs in `y`.
pub open spec fn first_occurrence(y: Seq<char>, w: Seq<char>, k: int) -> bool {
    &&& 0 <= k && k + w.len() <= y.len()
    &&& y.subrange(k, k + w.len()) == w
    &&& forall|j: int| 0 <= j < k ==> #[trigger] y.subrange(j, j + w.len()) != w
}

/// Where `w` first occurs in `y`, if it does.
pub fn find_text(y: &Vec<char>, w: &str) -> (r: Option<usize>)
    ensures
        match r {
            Some(k) => first_occurrence(y@, w@, k as int),
            None => !crate::tools::occurs_in(y@, w@),
        },
{
    let m = w.unicode_len();
    if m == 0 {
        proof { assert(y@.subrange(0, 0 + w@.len() as int) =~= w@); }
        return Some(0);
    }
    if m > y.len() {
        proof {
            assert forall|i: int| 0 <= i && i + w@.len() <= y@.len() implies #[trigger] y@.subrange(i, i + w@.len()) != w@ by {}
        }
        return None;
    }
    let count = y.len() - m + 1;
    let mut i: usize = 0;
    while i < count
        invariant
            m == w@.len(),
            m <= y@.len(),
            count == y@.len() - m + 1,
            i <= count,
            forall|j: int| 0 <= j < i ==> #[trigger] y@.subrange(j, j + m) != w@,
        decreases count - i,
    {
        assert(i + m <= y.len());
        if crate::text::slice_is(y, i, i + m, w) {
            return Some(i);
        }
        i = i + 1;
    }
    proof {
        assert forall|j: int| 0 <= j && j + w@.len() <= y@.len() implies #[trigger] y@.subrange(j, j + w@.len()) != w@ by {
            assert(j < i);
        }
    }
    None
}

/// `init` never reinitializes a Snacc package.
pub fn refuse_reinitialize(cargo_toml: &str, root: &str) -> (r: Result<(), CliError>)
    ensures
        r is Ok <==> !crate::tools::occurs_in(cargo_toml@, "[package.metadata.snacc]"@),
        r matches Err(e) ==> e.0@ == "refusing to reinitialize existing Snacc package '"@ + root@ + "'"@,
{
    let chars = crate::text::chars_of(cargo_toml);
    match find_text(&chars, "[package.metadata.snacc]") {
        Some(k) => {
            proof {
                assert(chars@.subrange(k as int, k + "[package.metadata.snacc]"@.len()) == "[package.metadata.snacc]"@);
            }
            let mut m = owned("refusing to reinitialize existing Snacc package '");
            push_str(&mut m, root);
            push_str(&mut m, "'");
            Err(CliError(m))
        },
        None => Ok(()),
    }
}

/// The runtime dependency `init` adds.
pub open spec fn runtime_dependency() -> Seq<char> {
    "\nsnacc-runtime = \"0.1\""@
}

/// The sections `init` appends after the dependency: the Snacc metadata
/// naming the host binary, and the bridge-assertion `cfg`.
pub open spec fn snacc_sections(package_name: Seq<char>) -> Seq<char> {
    "\n[package.metadata.snacc]\nschema-version = 1\nentry = \"src/main.nrs\"\nhost-bin = \""@ + package_name + "\"\n"@
        + "\n[lints.rust]\nunexpected_cfgs = { level = \"warn\", check-cfg = ['cfg(snacc_bridge_assertions)'] }\n"@
}

/// What `init` makes of a package manifest: the runtime dependency goes at
/// the top of the first `[dependencies]` table, or a new one is appended,
/// then the Snacc sections follow.
pub open spec fn initialized_manifest(cargo_toml: Seq<char>, package_name: Seq<char>) -> Seq<char> {
    let w = "[dependencies]"@;
    let with_dependency = if crate::tools::occurs_in(cargo_toml, w) {
        let k = choose|k: int| first_occurrence(cargo_toml, w, k);
        cargo_toml.take(k + w.len()) + runtime_dependency() + cargo_toml.skip(k + w.len())
    } else {
        cargo_toml + "\n[dependencies]\nsnacc-runtime = \"0.1\"\n"@
    };
    with_dependency + snacc_sections(package_name)
}

/// Adds the runtime dependency and the Snacc sections to a manifest.
pub fn initialize_manifest(cargo_toml: &str, package_name: &str) -> (r: String)
    ensures
        r@ == initialized_manifest(cargo_toml@, package_name@),
{
    let chars = crate::text::chars_of(cargo_toml);
    let w = "[dependencies]";
    let mut r = String::new();
    match find_text(&chars, w) {
        Some(k) => {
            let m = w.unicode_len();
            assert(k + m <= chars.len());
            proof {
                assert(crate::tools::occurs_in(chars@, w@));
                let j = choose|j: int| first_occurrence(chars@, w@, j);
                if j < k {
                    assert(chars@.subrange(j, j + w@.len()) != w@);
                } else if k < j {
                    assert(chars@.subrange(k as int, k + w@.len()) != w@);
                }
            }
            crate::text::push_chars(&mut r, &chars, 0, k + m);
            push_str(&mut r, "\nsnacc-runtime = \"0.1\"");
            crate::text::push_chars(&mut r, &chars, k + m, chars.len());
            proof {
                assert(chars@.subrange(0, k + m) =~= chars@.take(k + m));
                assert(chars@.subrange(k + m, chars@.len() as int) =~= chars@.skip(k + m));
            }
        },
        None => {
            push_str(&mut r, cargo_toml);
            push_str(&mut r, "\n[dependencies]\nsnacc-runtime = \"0.1\"\n");
        },
    }
    push_str(&mut r, "\n[package.metadata.snacc]\nschema-version = 1\nentry = \"src/main.nrs\"\nhost-bin = \"");
    push_str(&mut r, package_name);
    push_str(&mut r, "\"\n");
    push_str(&mut r, "\n[lints.rust]\nunexpected_cfgs = { level = \"warn\", check-cfg = ['cfg(snacc_bridge_assertions)'] }\n");
    r
}

} // verus!

verus! {

/// The Rust host `init` writes: it includes the bridge assertions and runs
/// the compiled program, and its test runs it too.
pub const HOST_MAIN_TEMPLATE: &'static str = "mod interop;\n\n#[cfg(snacc_bridge_assertions)]\ninclude!(env!(\"SNACC_BRIDGE_ASSERTIONS\"));\n\nunsafe extern \"C\" {\n    fn snacc_main() -> i32;\n}\n\nfn main() {\n    snacc_runtime::force_link();\n    // SAFETY: cargo-snacc links this host with the object defining this ABI.\n    let status = unsafe { snacc_main() };\n    std::process::exit(status);\n}\n\n#[test]\nfn snacc_entry_succeeds() {\n    snacc_runtime::force_link();\n    // SAFETY: cargo-snacc links this harness with the object defining this ABI.\n    assert_eq!(unsafe { snacc_main() }, 0);\n}\n";

/// The host `init` wrote before bridges were asserted.
pub const HOST_MAIN_TEMPLATE_WITHOUT_ASSERTIONS: &'static str = "mod interop;\n\nunsafe extern \"C\" {\n    fn snacc_main() -> i32;\n}\n\nfn main() {\n    snacc_runtime::force_link();\n    // SAFETY: cargo-snacc links this host with the object defining this ABI.\n    let status = unsafe { snacc_main() };\n    std::process::exit(status);\n}\n\n#[test]\nfn snacc_entry_succeeds() {\n    snacc_runtime::force_link();\n    // SAFETY: cargo-snacc links this harness with the object defining this ABI.\n    assert_eq!(unsafe { snacc_main() }, 0);\n}\n";

/// The `main.rs` that `cargo init` writes.
pub const CARGO_MAIN_TEMPLATE: &'static str = "fn main() {\n    println!(\"Hello, world!\");\n}";

/// Whether an existing host, once trimmed, is one `init` may replace: the
/// `cargo init` one, or one of its own.
pub open spec fn is_known_host(existing: Seq<char>) -> bool {
    let t = crate::tools::trimmed(existing);
    t == CARGO_MAIN_TEMPLATE@ || t == crate::tools::trimmed(HOST_MAIN_TEMPLATE_WITHOUT_ASSERTIONS@)
        || t == crate::tools::trimmed(HOST_MAIN_TEMPLATE@)
}

fn trimmed_text(s: &str) -> (r: Vec<char>)
    ensures
        r@ == crate::tools::trimmed(s@),
{
    crate::tools::trim_chars(&crate::text::chars_of(s))
}

fn same_chars(a: &Vec<char>, b: &Vec<char>) -> (r: bool)
    ensures
        r == (a@ == b@),
{
    if a.len() != b.len() {
        return false;
    }
    let mut i: usize = 0;
    while i < a.len()
        invariant
            a@.len() == b@.len(),
            i <= a@.len(),
            forall|j: int| 0 <= j < i ==> a@[j] == b@[j],
        decreases a@.len() - i,
    {
        if a[i] != b[i] {
            return false;
        }
        i = i + 1;
    }
    proof { assert(a@ =~= b@); }
    true
}

/// `init` replaces a host only where it is a template.
pub fn check_host_template(existing: &str, path: &str) -> (r: Result<(), CliError>)
    ensures
        r is Ok <==> is_known_host(existing@),
        r matches Err(e) ==> e.0@ == "refusing to overwrite non-template Rust host '"@ + path@ + "'"@,
{
    let t = trimmed_text(existing);
    let known = same_chars(&t, &crate::text::chars_of(CARGO_MAIN_TEMPLATE))
        || same_chars(&t, &trimmed_text(HOST_MAIN_TEMPLATE_WITHOUT_ASSERTIONS))
        || same_chars(&t, &trimmed_text(HOST_MAIN_TEMPLATE));
    if !known {
        let mut m = owned("refusing to overwrite non-template Rust host '");
        push_str(&mut m, path);
        push_str(&mut m, "'");
        return Err(CliError(m));
    }
    Ok(())
}

} // verus!

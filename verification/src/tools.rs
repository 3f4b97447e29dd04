//! The pure decisions of the command-line tools: argument parsing, command
//! dispatch, diagnostic rendering, source positions, and token handling.
//! Reading files, running processes and serving requests stay with the
//! programs that call these.

use vstd::prelude::*;
use crate::text::{owned, push_char, push_str, push_string, same, string_is};
use vstd::string::StringSliceAdditionalSpecFns;

verus! {

/// The message that labels a compiler defect rather than a source error.
pub const UNKNOWN_ERROR: &'static str = "Unknown Error - you have found a bug in the compiler";

/// A failure the command-line tool reports and exits on.
#[derive(Debug)]
pub struct CliError(pub String);

/// Cargo options forwarded by every command.
#[derive(Debug)]
pub struct Options {
    pub package: Option<String>,
    pub release: bool,
    pub profile: Option<String>,
    pub features: Vec<String>,
    pub all_features: bool,
    pub no_default_features: bool,
    pub locked: bool,
    pub frozen: bool,
    pub offline: bool,
    pub verbose: bool,
    pub all: bool,
}

impl Default for Options {
    fn default() -> (o: Options)
        ensures
            o@ == no_options(),
    {
        let o = Options {
            package: None,
            release: false,
            profile: None,
            features: Vec::new(),
            all_features: false,
            no_default_features: false,
            locked: false,
            frozen: false,
            offline: false,
            verbose: false,
            all: false,
        };
        assert(o.features@.map_values(|f: String| f@) =~= Seq::<Seq<char>>::empty());
        o
    }
}

/// The options, by the views of their texts.
pub struct OptionsView {
    pub package: Option<Seq<char>>,
    pub release: bool,
    pub profile: Option<Seq<char>>,
    pub features: Seq<Seq<char>>,
    pub all_features: bool,
    pub no_default_features: bool,
    pub locked: bool,
    pub frozen: bool,
    pub offline: bool,
    pub verbose: bool,
    pub all: bool,
}

impl View for Options {
    type V = OptionsView;

    open spec fn view(&self) -> OptionsView {
        OptionsView {
            package: text_option(self.package),
            release: self.release,
            profile: text_option(self.profile),
            features: self.features@.map_values(|f: String| f@),
            all_features: self.all_features,
            no_default_features: self.no_default_features,
            locked: self.locked,
            frozen: self.frozen,
            offline: self.offline,
            verbose: self.verbose,
            all: self.all,
        }
    }
}

/// No option given.
pub open spec fn no_options() -> OptionsView {
    OptionsView {
        package: None,
        release: false,
        profile: None,
        features: Seq::empty(),
        all_features: false,
        no_default_features: false,
        locked: false,
        frozen: false,
        offline: false,
        verbose: false,
        all: false,
    }
}

/// Parsed options, the positional arguments, and everything after `--`.
#[derive(Debug)]
pub struct ParsedOptions {
    pub options: Options,
    pub positionals: Vec<String>,
    pub trailing: Vec<String>,
}

/// Whether a text starts with `-`.
pub open spec fn dashed(s: Seq<char>) -> bool {
    s.len() > 0 && s[0] == '-'
}

pub fn starts_with_dash(s: &String) -> (r: bool)
    ensures
        r == dashed(s@),
{
    let t = s.as_str();
    t.unicode_len() > 0 && t.get_char(0) == '-'
}

/// The parts of a text between occurrences of `sep`, in order, as
/// `str::split(sep)` gives them; there is always at least one.
pub open spec fn parts_on(s: Seq<char>, sep: char) -> Seq<Seq<char>>
    decreases s.len(),
{
    if s.len() == 0 {
        seq![Seq::<char>::empty()]
    } else {
        let p = parts_on(s.drop_last(), sep);
        if s.last() == sep {
            p.push(Seq::<char>::empty())
        } else {
            p.update(p.len() - 1, p.last().push(s.last()))
        }
    }
}

pub proof fn lemma_parts_nonempty(s: Seq<char>, sep: char)
    ensures
        parts_on(s, sep).len() >= 1,
    decreases s.len(),
{
    if s.len() > 0 {
        lemma_parts_nonempty(s.drop_last(), sep);
    }
}

/// The comma-separated parts of a text.
pub open spec fn comma_parts(s: Seq<char>) -> Seq<Seq<char>> {
    parts_on(s, ',')
}

/// Splits a text at every `sep`, keeping each part as written.
pub fn split_on(s: &String, sep: char) -> (parts: Vec<String>)
    ensures
        parts@.len() == parts_on(s@, sep).len(),
        forall|i: int| 0 <= i < parts@.len() ==> (#[trigger] parts@[i])@ == parts_on(s@, sep)[i],
{
    let t = s.as_str();
    let n = t.unicode_len();
    let mut parts: Vec<String> = Vec::new();
    let mut current = String::new();
    let mut i: usize = 0;
    while i < n
        invariant
            n == s@.len(),
            t@ == s@,
            i <= n,
            parts@.len() + 1 == parts_on(s@.take(i as int), sep).len(),
            forall|k: int| 0 <= k < parts@.len() ==> (#[trigger] parts@[k])@ == parts_on(s@.take(i as int), sep)[k],
            current@ == parts_on(s@.take(i as int), sep).last(),
        decreases n - i,
    {
        proof {
            lemma_parts_nonempty(s@.take(i as int), sep);
            assert(s@.take(i + 1).drop_last() =~= s@.take(i as int));
        }
        let c = t.get_char(i);
        if c == sep {
            parts.push(current);
            current = String::new();
        } else {
            push_char(&mut current, c);
        }
        i = i + 1;
    }
    proof { assert(s@.take(n as int) =~= s@); }
    parts.push(current);
    parts
}

/// The comma-separated parts of a text, in order, each kept as written.
pub fn split_commas(s: &String) -> (parts: Vec<String>)
    ensures
        parts@.len() == comma_parts(s@).len(),
        forall|i: int| 0 <= i < parts@.len() ==> (#[trigger] parts@[i])@ == comma_parts(s@)[i],
{
    split_on(s, ',')
}

/// The value that follows an option at `index`, or the error naming what it
/// needs.
pub open spec fn option_value_outcome(args: Seq<Seq<char>>, index: int, option: Seq<char>, what: Seq<char>) -> Result<Seq<char>, Seq<char>> {
    if index >= args.len() {
        Err(option + " requires a value"@)
    } else if dashed(args[index]) {
        Err(option + " requires "@ + what)
    } else {
        Ok(args[index])
    }
}

/// What the arguments from `index` on give, with the options and positional
/// arguments read so far: options, positionals and what follows the first
/// `--`, or the message of the first argument that cannot be accepted.
pub open spec fn scan_options(args: Seq<Seq<char>>, index: int, o: OptionsView, pos: Seq<Seq<char>>)
    -> Result<(OptionsView, Seq<Seq<char>>, Seq<Seq<char>>), Seq<char>>
    decreases args.len() - index,
{
    if index < 0 || index >= args.len() {
        Ok((o, pos, Seq::empty()))
    } else {
        let a = args[index];
        if a == "--"@ {
            Ok((o, pos, args.skip(index + 1)))
        } else if a == "--release"@ {
            scan_options(args, index + 1, OptionsView { release: true, ..o }, pos)
        } else if a == "--all-features"@ {
            scan_options(args, index + 1, OptionsView { all_features: true, ..o }, pos)
        } else if a == "--no-default-features"@ {
            scan_options(args, index + 1, OptionsView { no_default_features: true, ..o }, pos)
        } else if a == "--locked"@ {
            scan_options(args, index + 1, OptionsView { locked: true, ..o }, pos)
        } else if a == "--frozen"@ {
            scan_options(args, index + 1, OptionsView { frozen: true, ..o }, pos)
        } else if a == "--offline"@ {
            scan_options(args, index + 1, OptionsView { offline: true, ..o }, pos)
        } else if a == "--all"@ {
            scan_options(args, index + 1, OptionsView { all: true, ..o }, pos)
        } else if a == "--verbose"@ || a == "-v"@ {
            scan_options(args, index + 1, OptionsView { verbose: true, ..o }, pos)
        } else if a == "--package"@ {
            match option_value_outcome(args, index + 1, "--package"@, "a package name"@) {
                Err(m) => Err(m),
                Ok(v) => scan_options(args, index + 2, OptionsView { package: Some(v), ..o }, pos),
            }
        } else if a == "--profile"@ {
            match option_value_outcome(args, index + 1, "--profile"@, "a profile name"@) {
                Err(m) => Err(m),
                Ok(v) => scan_options(args, index + 2, OptionsView { profile: Some(v), ..o }, pos),
            }
        } else if a == "--features"@ {
            match option_value_outcome(args, index + 1, "--features"@, "a feature list"@) {
                Err(m) => Err(m),
                Ok(v) => scan_options(args, index + 2, OptionsView { features: comma_parts(v), ..o }, pos),
            }
        } else if dashed(a) {
            Err("unknown option '"@ + a + "'"@)
        } else {
            scan_options(args, index + 1, o, pos.push(a))
        }
    }
}

/// `w` stands among `args[i..]` before the first `--`.
pub open spec fn flag_from(args: Seq<Seq<char>>, i: int, w: Seq<char>) -> bool {
    exists|k: int| i <= k < args.len() && args[k] == w && forall|j: int| i <= j < k ==> #[trigger] args[j] != "--"@
}

/// The option words are dashed and pairwise distinct.
pub(crate) proof fn lemma_option_words()
    ensures
        dashed("--"@),
        dashed("--release"@),
        dashed("--all-features"@),
        dashed("--no-default-features"@),
        dashed("--locked"@),
        dashed("--frozen"@),
        dashed("--offline"@),
        dashed("--all"@),
        dashed("--verbose"@),
        dashed("-v"@),
        dashed("--package"@),
        dashed("--profile"@),
        dashed("--features"@),
        "--"@ != "--release"@,
        "--"@ != "--all-features"@,
        "--"@ != "--no-default-features"@,
        "--"@ != "--locked"@,
        "--"@ != "--frozen"@,
        "--"@ != "--offline"@,
        "--"@ != "--all"@,
        "--"@ != "--verbose"@,
        "--"@ != "-v"@,
        "--"@ != "--package"@,
        "--"@ != "--profile"@,
        "--"@ != "--features"@,
        "--release"@ != "--all-features"@,
        "--release"@ != "--no-default-features"@,
        "--release"@ != "--locked"@,
        "--release"@ != "--frozen"@,
        "--release"@ != "--offline"@,
        "--release"@ != "--all"@,
        "--release"@ != "--verbose"@,
        "--release"@ != "-v"@,
        "--release"@ != "--package"@,
        "--release"@ != "--profile"@,
        "--release"@ != "--features"@,
        "--all-features"@ != "--no-default-features"@,
        "--all-features"@ != "--locked"@,
        "--all-features"@ != "--frozen"@,
        "--all-features"@ != "--offline"@,
        "--all-features"@ != "--all"@,
        "--all-features"@ != "--verbose"@,
        "--all-features"@ != "-v"@,
        "--all-features"@ != "--package"@,
        "--all-features"@ != "--profile"@,
        "--all-features"@ != "--features"@,
        "--no-default-features"@ != "--locked"@,
        "--no-default-features"@ != "--frozen"@,
        "--no-default-features"@ != "--offline"@,
        "--no-default-features"@ != "--all"@,
        "--no-default-features"@ != "--verbose"@,
        "--no-default-features"@ != "-v"@,
        "--no-default-features"@ != "--package"@,
        "--no-default-features"@ != "--profile"@,
        "--no-default-features"@ != "--features"@,
        "--locked"@ != "--frozen"@,
        "--locked"@ != "--offline"@,
        "--locked"@ != "--all"@,
        "--locked"@ != "--verbose"@,
        "--locked"@ != "-v"@,
        "--locked"@ != "--package"@,
        "--locked"@ != "--profile"@,
        "--locked"@ != "--features"@,
        "--frozen"@ != "--offline"@,
        "--frozen"@ != "--all"@,
        "--frozen"@ != "--verbose"@,
        "--frozen"@ != "-v"@,
        "--frozen"@ != "--package"@,
        "--frozen"@ != "--profile"@,
        "--frozen"@ != "--features"@,
        "--offline"@ != "--all"@,
        "--offline"@ != "--verbose"@,
        "--offline"@ != "-v"@,
        "--offline"@ != "--package"@,
        "--offline"@ != "--profile"@,
        "--offline"@ != "--features"@,
        "--all"@ != "--verbose"@,
        "--all"@ != "-v"@,
        "--all"@ != "--package"@,
        "--all"@ != "--profile"@,
        "--all"@ != "--features"@,
        "--verbose"@ != "-v"@,
        "--verbose"@ != "--package"@,
        "--verbose"@ != "--profile"@,
        "--verbose"@ != "--features"@,
        "-v"@ != "--package"@,
        "-v"@ != "--profile"@,
        "-v"@ != "--features"@,
        "--package"@ != "--profile"@,
        "--package"@ != "--features"@,
        "--profile"@ != "--features"@,
{
    reveal_strlit("--");
    reveal_strlit("--release");
    reveal_strlit("--all-features");
    reveal_strlit("--no-default-features");
    reveal_strlit("--locked");
    reveal_strlit("--frozen");
    reveal_strlit("--offline");
    reveal_strlit("--all");
    reveal_strlit("--verbose");
    reveal_strlit("-v");
    reveal_strlit("--package");
    reveal_strlit("--profile");
    reveal_strlit("--features");
    assert("--"@.len() != "--release"@.len());
    assert("--"@.len() != "--all-features"@.len());
    assert("--"@.len() != "--no-default-features"@.len());
    assert("--"@.len() != "--locked"@.len());
    assert("--"@.len() != "--frozen"@.len());
    assert("--"@.len() != "--offline"@.len());
    assert("--"@.len() != "--all"@.len());
    assert("--"@.len() != "--verbose"@.len());
    assert("--"@[1] != "-v"@[1]);
    assert("--"@.len() != "--package"@.len());
    assert("--"@.len() != "--profile"@.len());
    assert("--"@.len() != "--features"@.len());
    assert("--release"@.len() != "--all-features"@.len());
    assert("--release"@.len() != "--no-default-features"@.len());
    assert("--release"@.len() != "--locked"@.len());
    assert("--release"@.len() != "--frozen"@.len());
    assert("--release"@[2] != "--offline"@[2]);
    assert("--release"@.len() != "--all"@.len());
    assert("--release"@[2] != "--verbose"@[2]);
    assert("--release"@.len() != "-v"@.len());
    assert("--release"@[2] != "--package"@[2]);
    assert("--release"@[2] != "--profile"@[2]);
    assert("--release"@.len() != "--features"@.len());
    assert("--all-features"@.len() != "--no-default-features"@.len());
    assert("--all-features"@.len() != "--locked"@.len());
    assert("--all-features"@.len() != "--frozen"@.len());
    assert("--all-features"@.len() != "--offline"@.len());
    assert("--all-features"@.len() != "--all"@.len());
    assert("--all-features"@.len() != "--verbose"@.len());
    assert("--all-features"@.len() != "-v"@.len());
    assert("--all-features"@.len() != "--package"@.len());
    assert("--all-features"@.len() != "--profile"@.len());
    assert("--all-features"@.len() != "--features"@.len());
    assert("--no-default-features"@.len() != "--locked"@.len());
    assert("--no-default-features"@.len() != "--frozen"@.len());
    assert("--no-default-features"@.len() != "--offline"@.len());
    assert("--no-default-features"@.len() != "--all"@.len());
    assert("--no-default-features"@.len() != "--verbose"@.len());
    assert("--no-default-features"@.len() != "-v"@.len());
    assert("--no-default-features"@.len() != "--package"@.len());
    assert("--no-default-features"@.len() != "--profile"@.len());
    assert("--no-default-features"@.len() != "--features"@.len());
    assert("--locked"@[2] != "--frozen"@[2]);
    assert("--locked"@.len() != "--offline"@.len());
    assert("--locked"@.len() != "--all"@.len());
    assert("--locked"@.len() != "--verbose"@.len());
    assert("--locked"@.len() != "-v"@.len());
    assert("--locked"@.len() != "--package"@.len());
    assert("--locked"@.len() != "--profile"@.len());
    assert("--locked"@.len() != "--features"@.len());
    assert("--frozen"@.len() != "--offline"@.len());
    assert("--frozen"@.len() != "--all"@.len());
    assert("--frozen"@.len() != "--verbose"@.len());
    assert("--frozen"@.len() != "-v"@.len());
    assert("--frozen"@.len() != "--package"@.len());
    assert("--frozen"@.len() != "--profile"@.len());
    assert("--frozen"@.len() != "--features"@.len());
    assert("--offline"@.len() != "--all"@.len());
    assert("--offline"@[2] != "--verbose"@[2]);
    assert("--offline"@.len() != "-v"@.len());
    assert("--offline"@[2] != "--package"@[2]);
    assert("--offline"@[2] != "--profile"@[2]);
    assert("--offline"@.len() != "--features"@.len());
    assert("--all"@.len() != "--verbose"@.len());
    assert("--all"@.len() != "-v"@.len());
    assert("--all"@.len() != "--package"@.len());
    assert("--all"@.len() != "--profile"@.len());
    assert("--all"@.len() != "--features"@.len());
    assert("--verbose"@.len() != "-v"@.len());
    assert("--verbose"@[2] != "--package"@[2]);
    assert("--verbose"@[2] != "--profile"@[2]);
    assert("--verbose"@.len() != "--features"@.len());
    assert("-v"@.len() != "--package"@.len());
    assert("-v"@.len() != "--profile"@.len());
    assert("-v"@.len() != "--features"@.len());
    assert("--package"@[3] != "--profile"@[3]);
    assert("--package"@.len() != "--features"@.len());
    assert("--profile"@.len() != "--features"@.len());
}

proof fn lemma_flag_from_step(args: Seq<Seq<char>>, i: int, w: Seq<char>)
    requires
        0 <= i < args.len(),
    ensures
        flag_from(args, i, w) == (args[i] == w || (args[i] != "--"@ && flag_from(args, i + 1, w))),
{
    if flag_from(args, i, w) && args[i] != w {
        let k = choose|k: int| i <= k < args.len() && args[k] == w && forall|j: int| i <= j < k ==> #[trigger] args[j] != "--"@;
        assert(args[i] != "--"@);
        assert(forall|j: int| i + 1 <= j < k ==> #[trigger] args[j] != "--"@);
    }
    if args[i] != "--"@ && flag_from(args, i + 1, w) {
        let k = choose|k: int| i + 1 <= k < args.len() && args[k] == w && forall|j: int| i + 1 <= j < k ==> #[trigger] args[j] != "--"@;
        assert(forall|j: int| i <= j < k ==> #[trigger] args[j] != "--"@);
    }
    if args[i] == w {
        assert(forall|j: int| i <= j < i ==> #[trigger] args[j] != "--"@);
    }
}

/// Each flag sets its own option and no other: after a scan, an option is on
/// exactly when it was on before or its word (`--release`, `--locked`, and
/// so on; `--verbose` or `-v`) stands before the first `--`.
#[verifier::rlimit(40)]
pub proof fn law_flags_set_their_own_options(args: Seq<Seq<char>>, i: int, o: OptionsView, pos: Seq<Seq<char>>)
    requires
        0 <= i,
    ensures
        scan_options(args, i, o, pos) matches Ok((o2, _, _)) ==> {
            &&& o2.release == (o.release || flag_from(args, i, "--release"@))
            &&& o2.all_features == (o.all_features || flag_from(args, i, "--all-features"@))
            &&& o2.no_default_features == (o.no_default_features || flag_from(args, i, "--no-default-features"@))
            &&& o2.locked == (o.locked || flag_from(args, i, "--locked"@))
            &&& o2.frozen == (o.frozen || flag_from(args, i, "--frozen"@))
            &&& o2.offline == (o.offline || flag_from(args, i, "--offline"@))
            &&& o2.all == (o.all || flag_from(args, i, "--all"@))
            &&& o2.verbose == (o.verbose || flag_from(args, i, "--verbose"@) || flag_from(args, i, "-v"@))
        },
    decreases args.len() - i,
{
    lemma_option_words();
    if i < args.len() {
        let a = args[i];
        lemma_flag_from_step(args, i, "--release"@);
        lemma_flag_from_step(args, i, "--all-features"@);
        lemma_flag_from_step(args, i, "--no-default-features"@);
        lemma_flag_from_step(args, i, "--locked"@);
        lemma_flag_from_step(args, i, "--frozen"@);
        lemma_flag_from_step(args, i, "--offline"@);
        lemma_flag_from_step(args, i, "--all"@);
        lemma_flag_from_step(args, i, "--verbose"@);
        lemma_flag_from_step(args, i, "-v"@);
        if a == "--"@ {
        } else if a == "--release"@ {
            law_flags_set_their_own_options(args, i + 1, OptionsView { release: true, ..o }, pos);
        } else if a == "--all-features"@ {
            law_flags_set_their_own_options(args, i + 1, OptionsView { all_features: true, ..o }, pos);
        } else if a == "--no-default-features"@ {
            law_flags_set_their_own_options(args, i + 1, OptionsView { no_default_features: true, ..o }, pos);
        } else if a == "--locked"@ {
            law_flags_set_their_own_options(args, i + 1, OptionsView { locked: true, ..o }, pos);
        } else if a == "--frozen"@ {
            law_flags_set_their_own_options(args, i + 1, OptionsView { frozen: true, ..o }, pos);
        } else if a == "--offline"@ {
            law_flags_set_their_own_options(args, i + 1, OptionsView { offline: true, ..o }, pos);
        } else if a == "--all"@ {
            law_flags_set_their_own_options(args, i + 1, OptionsView { all: true, ..o }, pos);
        } else if a == "--verbose"@ || a == "-v"@ {
            law_flags_set_their_own_options(args, i + 1, OptionsView { verbose: true, ..o }, pos);
        } else if a == "--package"@ {
            if i + 1 < args.len() && !dashed(args[i + 1]) {
                lemma_flag_from_step(args, i + 1, "--release"@);
                lemma_flag_from_step(args, i + 1, "--all-features"@);
                lemma_flag_from_step(args, i + 1, "--no-default-features"@);
                lemma_flag_from_step(args, i + 1, "--locked"@);
                lemma_flag_from_step(args, i + 1, "--frozen"@);
                lemma_flag_from_step(args, i + 1, "--offline"@);
                lemma_flag_from_step(args, i + 1, "--all"@);
                lemma_flag_from_step(args, i + 1, "--verbose"@);
                lemma_flag_from_step(args, i + 1, "-v"@);
                law_flags_set_their_own_options(args, i + 2, OptionsView { package: Some(args[i + 1]), ..o }, pos);
            }
        } else if a == "--profile"@ {
            if i + 1 < args.len() && !dashed(args[i + 1]) {
                lemma_flag_from_step(args, i + 1, "--release"@);
                lemma_flag_from_step(args, i + 1, "--all-features"@);
                lemma_flag_from_step(args, i + 1, "--no-default-features"@);
                lemma_flag_from_step(args, i + 1, "--locked"@);
                lemma_flag_from_step(args, i + 1, "--frozen"@);
                lemma_flag_from_step(args, i + 1, "--offline"@);
                lemma_flag_from_step(args, i + 1, "--all"@);
                lemma_flag_from_step(args, i + 1, "--verbose"@);
                lemma_flag_from_step(args, i + 1, "-v"@);
                law_flags_set_their_own_options(args, i + 2, OptionsView { profile: Some(args[i + 1]), ..o }, pos);
            }
        } else if a == "--features"@ {
            if i + 1 < args.len() && !dashed(args[i + 1]) {
                lemma_flag_from_step(args, i + 1, "--release"@);
                lemma_flag_from_step(args, i + 1, "--all-features"@);
                lemma_flag_from_step(args, i + 1, "--no-default-features"@);
                lemma_flag_from_step(args, i + 1, "--locked"@);
                lemma_flag_from_step(args, i + 1, "--frozen"@);
                lemma_flag_from_step(args, i + 1, "--offline"@);
                lemma_flag_from_step(args, i + 1, "--all"@);
                lemma_flag_from_step(args, i + 1, "--verbose"@);
                lemma_flag_from_step(args, i + 1, "-v"@);
                law_flags_set_their_own_options(args, i + 2, OptionsView { features: comma_parts(args[i + 1]), ..o }, pos);
            }
        } else if dashed(a) {
        } else {
            law_flags_set_their_own_options(args, i + 1, o, pos.push(a));
        }
    }
}

/// What `parse_options` accepts has each flag on exactly when its word
/// stands before the first `--`.
pub proof fn law_parsed_flags(args: Seq<Seq<char>>)
    ensures
        options_outcome(args) matches Ok((o, _, _)) ==> {
            &&& o.release == (flag_from(args, 0, "--release"@))
            &&& o.all_features == (flag_from(args, 0, "--all-features"@))
            &&& o.no_default_features == (flag_from(args, 0, "--no-default-features"@))
            &&& o.locked == (flag_from(args, 0, "--locked"@))
            &&& o.frozen == (flag_from(args, 0, "--frozen"@))
            &&& o.offline == (flag_from(args, 0, "--offline"@))
            &&& o.all == (flag_from(args, 0, "--all"@))
            &&& o.verbose == (flag_from(args, 0, "--verbose"@) || flag_from(args, 0, "-v"@))
        },
{
    law_flags_set_their_own_options(args, 0, no_options(), Seq::empty());
}

/// What `parse_options` gives: the scan, refused where it names both
/// `--release` and `--profile`, or a profile other than `dev` and `release`.
pub open spec fn options_outcome(args: Seq<Seq<char>>) -> Result<(OptionsView, Seq<Seq<char>>, Seq<Seq<char>>), Seq<char>> {
    match scan_options(args, 0, no_options(), Seq::empty()) {
        Err(m) => Err(m),
        Ok((o, p, t)) => {
            if o.release && o.profile is Some {
                Err("--release and --profile are mutually exclusive"@)
            } else if o.profile matches Some(x) && x != "dev"@ && x != "release"@ {
                Err("unsupported Cargo profile '"@ + o.profile.unwrap() + "'"@)
            } else {
                Ok((o, p, t))
            }
        },
    }
}

/// The views of a list of texts.
pub open spec fn texts(v: Seq<String>) -> Seq<Seq<char>> {
    v.map_values(|s: String| s@)
}

/// The value that follows an option, or the error naming what it needs.
fn option_value(args: &Vec<String>, index: usize, option: &str, what: &str) -> (r: Result<String, CliError>)
    ensures
        match r {
            Ok(v) => option_value_outcome(texts(args@), index as int, option@, what@) == Ok::<Seq<char>, Seq<char>>(v@),
            Err(e) => option_value_outcome(texts(args@), index as int, option@, what@) == Err::<Seq<char>, Seq<char>>(e.0@),
        },
{
    if index >= args.len() {
        let mut m = owned(option);
        push_str(&mut m, " requires a value");
        return Err(CliError(m));
    }
    if starts_with_dash(&args[index]) {
        let mut m = owned(option);
        push_str(&mut m, " requires ");
        push_str(&mut m, what);
        return Err(CliError(m));
    }
    Ok(args[index].clone())
}

/// The position of the first `--`, if any.
pub fn find_separator(args: &Vec<String>) -> (r: Option<usize>)
    ensures
        r is None ==> forall|i: int| 0 <= i < args@.len() ==> (#[trigger] args@[i])@ != "--"@,
        r matches Some(k) ==> k < args@.len() && args@[k as int]@ == "--"@
            && forall|j: int| 0 <= j < k ==> (#[trigger] args@[j])@ != "--"@,
{
    let mut i: usize = 0;
    while i < args.len()
        invariant
            i <= args@.len(),
            forall|j: int| 0 <= j < i ==> (#[trigger] args@[j])@ != "--"@,
        decreases args@.len() - i,
    {
        if string_is(&args[i], "--") {
            return Some(i);
        }
        i = i + 1;
    }
    None
}

/// Reads the option or positional argument at `index`, before the first
/// `--` at `stop`, and gives where the next one starts.
#[verifier::rlimit(40)]
fn read_option(args: &Vec<String>, index: usize, stop: usize, options: &mut Options, positionals: &mut Vec<String>)
    -> (r: Result<usize, CliError>)
    requires
        index < stop <= args@.len(),
        forall|j: int| 0 <= j < stop ==> (#[trigger] args@[j])@ != "--"@,
        stop < args@.len() ==> args@[stop as int]@ == "--"@,
    ensures
        match r {
            Ok(next) => index < next <= stop && scan_options(texts(args@), next as int, final(options)@, texts(final(positionals)@))
                == scan_options(texts(args@), index as int, old(options)@, texts(old(positionals)@)),
            Err(e) => scan_options(texts(args@), index as int, old(options)@, texts(old(positionals)@))
                == Err::<(OptionsView, Seq<Seq<char>>, Seq<Seq<char>>), Seq<char>>(e.0@),
        },
{
    let ghost views = texts(args@);
    let arg = &args[index];
    let ghost o = options@;
    let ghost pos = texts(positionals@);
    proof {
        assert(views[index as int] == arg@);
        reveal_strlit("--");
    }
    if string_is(arg, "--release") {
        options.release = true;
        proof { assert(options@ == OptionsView { release: true, ..o }); }
    } else if string_is(arg, "--all-features") {
        options.all_features = true;
        proof { assert(options@ == OptionsView { all_features: true, ..o }); }
    } else if string_is(arg, "--no-default-features") {
        options.no_default_features = true;
        proof { assert(options@ == OptionsView { no_default_features: true, ..o }); }
    } else if string_is(arg, "--locked") {
        options.locked = true;
        proof { assert(options@ == OptionsView { locked: true, ..o }); }
    } else if string_is(arg, "--frozen") {
        options.frozen = true;
        proof { assert(options@ == OptionsView { frozen: true, ..o }); }
    } else if string_is(arg, "--offline") {
        options.offline = true;
        proof { assert(options@ == OptionsView { offline: true, ..o }); }
    } else if string_is(arg, "--all") {
        options.all = true;
        proof { assert(options@ == OptionsView { all: true, ..o }); }
    } else if string_is(arg, "--verbose") || string_is(arg, "-v") {
        options.verbose = true;
        proof { assert(options@ == OptionsView { verbose: true, ..o }); }
    } else if string_is(arg, "--package") {
        let value = option_value(args, index + 1, "--package", "a package name")?;
        options.package = Some(value);
        proof { assert(options@ == OptionsView { package: Some(views[index + 1]), ..o }); }
        return Ok(index + 2);
    } else if string_is(arg, "--profile") {
        let value = option_value(args, index + 1, "--profile", "a profile name")?;
        options.profile = Some(value);
        proof { assert(options@ == OptionsView { profile: Some(views[index + 1]), ..o }); }
        return Ok(index + 2);
    } else if string_is(arg, "--features") {
        let value = option_value(args, index + 1, "--features", "a feature list")?;
        options.features = split_commas(&value);
        proof {
            assert(options.features@.map_values(|f: String| f@) =~= comma_parts(value@));
            assert(options@ == OptionsView { features: comma_parts(views[index + 1]), ..o });
        }
        return Ok(index + 2);
    } else if starts_with_dash(arg) {
        return Err(CliError(crate::text::concat3("unknown option '", arg, "'")));
    } else {
        positionals.push(arg.clone());
        proof { assert(texts(positionals@) =~= pos.push(arg@)); }
    }
    Ok(index + 1)
}

/// Parses Cargo options up to the first `--`; what follows it is kept
/// verbatim.
pub fn parse_options(args: &Vec<String>) -> (r: Result<ParsedOptions, CliError>)
    ensures
        match r {
            Ok(p) => options_outcome(texts(args@)) == Ok::<(OptionsView, Seq<Seq<char>>, Seq<Seq<char>>), Seq<char>>(
                (p.options@, texts(p.positionals@), texts(p.trailing@))),
            Err(e) => options_outcome(texts(args@)) == Err::<(OptionsView, Seq<Seq<char>>, Seq<Seq<char>>), Seq<char>>(e.0@),
        },
{
    let ghost views = texts(args@);
    let separator = find_separator(args);
    let stop = match separator {
        Some(k) => k,
        None => args.len(),
    };
    let mut options = Options::default();
    let mut positionals: Vec<String> = Vec::new();
    let mut index: usize = 0;
    proof {
        assert(texts(positionals@) =~= Seq::<Seq<char>>::empty());
    }
    while index < stop
        invariant
            stop <= args@.len(),
            index <= stop,
            views == texts(args@),
            separator matches Some(k) ==> k == stop && k < args@.len(),
            separator is None ==> stop == args@.len(),
            stop < args@.len() ==> args@[stop as int]@ == "--"@,
            forall|j: int| 0 <= j < stop ==> (#[trigger] args@[j])@ != "--"@,
            scan_options(views, index as int, options@, texts(positionals@))
                == scan_options(views, 0, no_options(), Seq::empty()),
        decreases stop - index,
    {
        index = read_option(args, index, stop, &mut options, &mut positionals)?;
    }
    let mut trailing: Vec<String> = Vec::new();
    if let Some(k) = separator {
        let n = args.len();
        assert(k < n);
        let mut j = k + 1;
        while j < args.len()
            invariant
                k < j <= args@.len(),
                k < args@.len(),
                views == texts(args@),
                texts(trailing@) == views.subrange(k + 1, j as int),
            decreases args@.len() - j,
        {
            let ghost before = trailing@;
            let item = args[j].clone();
            trailing.push(item);
            proof {
                assert(trailing@ == before.push(item));
                assert(item@ == views[j as int]);
                assert(texts(trailing@) =~= texts(before).push(item@));
                assert(texts(trailing@) =~= views.subrange(k + 1, j + 1));
            }
            j = j + 1;
        }
        proof {
            reveal_strlit("--");
            assert(views.subrange(k + 1, j as int) =~= views.skip(k + 1));
            assert(views[k as int] == "--"@);
        }
    } else {
        proof { assert(texts(trailing@) =~= Seq::<Seq<char>>::empty()); }
    }
    if options.release && options.profile.is_some() {
        return Err(CliError(owned("--release and --profile are mutually exclusive")));
    }
    if let Some(profile) = &options.profile {
        if !string_is(profile, "dev") && !string_is(profile, "release") {
            return Err(CliError(crate::text::concat3("unsupported Cargo profile '", profile, "'")));
        }
    }
    Ok(ParsedOptions { options, positionals, trailing })
}

/// A command that takes no positional arguments and nothing after `--`.
pub fn reject_extra(parsed: &ParsedOptions, command: &str) -> (r: Result<(), CliError>)
    ensures
        r is Ok <==> parsed.positionals@.len() == 0 && parsed.trailing@.len() == 0,
        parsed.positionals@.len() > 0 ==> (r matches Err(e)
            && e.0@ == "unexpected "@ + command@ + " argument '"@ + parsed.positionals@[0]@ + "'"@),
        parsed.positionals@.len() == 0 && parsed.trailing@.len() > 0 ==> (r matches Err(e)
            && e.0@ == command@ + " does not accept arguments after '--'"@),
{
    if parsed.positionals.len() > 0 {
        let mut m = owned("unexpected ");
        push_str(&mut m, command);
        push_str(&mut m, " argument '");
        push_string(&mut m, &parsed.positionals[0]);
        push_str(&mut m, "'");
        return Err(CliError(m));
    }
    if parsed.trailing.len() > 0 {
        let mut m = owned(command);
        push_str(&mut m, " does not accept arguments after '--'");
        return Err(CliError(m));
    }
    Ok(())
}

/// The tool's commands.
#[derive(Clone, Copy, Debug, PartialEq, Eq, Structural)]
pub enum Command {
    Init,
    Check,
    Build,
    Run,
    Test,
    Clean,
    Doctor,
}

/// A command and the arguments that follow it.
#[derive(Debug)]
pub struct Dispatch {
    pub command: Command,
    pub args: Vec<String>,
}

/// Each command word names its own command: `init`, `check`, `build`,
/// `run`, `test`, `clean` and `doctor` choose the command of the same name,
/// and no two words choose the same command.
pub proof fn law_command_words()
    ensures
        command_named("init"@) == Some(Command::Init),
        command_named("check"@) == Some(Command::Check),
        command_named("build"@) == Some(Command::Build),
        command_named("run"@) == Some(Command::Run),
        command_named("test"@) == Some(Command::Test),
        command_named("clean"@) == Some(Command::Clean),
        command_named("doctor"@) == Some(Command::Doctor),
        forall|a: Seq<char>, b: Seq<char>| #[trigger] command_named(a) is Some && command_named(a) == #[trigger] command_named(b) ==> a == b,
{
    reveal_strlit("init");
    reveal_strlit("check");
    reveal_strlit("build");
    reveal_strlit("run");
    reveal_strlit("test");
    reveal_strlit("clean");
    reveal_strlit("doctor");
    assert("init"@.len() != "check"@.len());
    assert("init"@.len() != "build"@.len());
    assert("init"@.len() != "run"@.len());
    assert("init"@[0] != "test"@[0]);
    assert("init"@.len() != "clean"@.len());
    assert("init"@.len() != "doctor"@.len());
    assert("check"@[0] != "build"@[0]);
    assert("check"@.len() != "run"@.len());
    assert("check"@.len() != "test"@.len());
    assert("check"@[1] != "clean"@[1]);
    assert("check"@.len() != "doctor"@.len());
    assert("build"@.len() != "run"@.len());
    assert("build"@.len() != "test"@.len());
    assert("build"@[0] != "clean"@[0]);
    assert("build"@.len() != "doctor"@.len());
    assert("run"@.len() != "test"@.len());
    assert("run"@.len() != "clean"@.len());
    assert("run"@.len() != "doctor"@.len());
    assert("test"@.len() != "clean"@.len());
    assert("test"@.len() != "doctor"@.len());
    assert("clean"@.len() != "doctor"@.len());
}

pub open spec fn command_named(s: Seq<char>) -> Option<Command> {
    if s == "init"@ {
        Some(Command::Init)
    } else if s == "check"@ {
        Some(Command::Check)
    } else if s == "build"@ {
        Some(Command::Build)
    } else if s == "run"@ {
        Some(Command::Run)
    } else if s == "test"@ {
        Some(Command::Test)
    } else if s == "clean"@ {
        Some(Command::Clean)
    } else if s == "doctor"@ {
        Some(Command::Doctor)
    } else {
        None
    }
}

/// Chooses the command: a leading `snacc` (as Cargo passes it to an
/// external subcommand) is skipped, then the first argument names it.
pub fn run(args: Vec<String>) -> (r: Result<Dispatch, CliError>)
    ensures
        ({
            let rest = if args@.len() > 0 && args@[0]@ == "snacc"@ { args@.drop_first() } else { args@ };
            &&& rest.len() == 0 ==> (r matches Err(e) && e.0@ == "expected one of init, check, build, run, test, clean, doctor"@)
            &&& rest.len() > 0 ==> match command_named(rest[0]@) {
                Some(c) => (r matches Ok(d) && d.command == c && d.args@.len() == rest.len() - 1
                    && forall|i: int| 0 <= i < d.args@.len() ==> (#[trigger] d.args@[i])@ == rest[i + 1]@),
                None => (r matches Err(e) && e.0@ == "unknown command '"@ + rest[0]@ + "'"@),
            }
        }),
        ({
            let rest = if args@.len() > 0 && args@[0]@ == "snacc"@ { args@.drop_first() } else { args@ };
            &&& rest.len() > 0 && rest[0]@ == "init"@ ==> (r matches Ok(d) && d.command == Command::Init)
            &&& rest.len() > 0 && rest[0]@ == "check"@ ==> (r matches Ok(d) && d.command == Command::Check)
            &&& rest.len() > 0 && rest[0]@ == "build"@ ==> (r matches Ok(d) && d.command == Command::Build)
            &&& rest.len() > 0 && rest[0]@ == "run"@ ==> (r matches Ok(d) && d.command == Command::Run)
            &&& rest.len() > 0 && rest[0]@ == "test"@ ==> (r matches Ok(d) && d.command == Command::Test)
            &&& rest.len() > 0 && rest[0]@ == "clean"@ ==> (r matches Ok(d) && d.command == Command::Clean)
            &&& rest.len() > 0 && rest[0]@ == "doctor"@ ==> (r matches Ok(d) && d.command == Command::Doctor)
        }),
{
    proof { law_command_words(); }
    let start: usize = if args.len() > 0 && string_is(&args[0], "snacc") { 1 } else { 0 };
    proof {
        reveal_strlit("snacc");
    }
    if start >= args.len() {
        return Err(CliError(owned("expected one of init, check, build, run, test, clean, doctor")));
    }
    let name = &args[start];
    let command = if string_is(name, "init") {
        Command::Init
    } else if string_is(name, "check") {
        Command::Check
    } else if string_is(name, "build") {
        Command::Build
    } else if string_is(name, "run") {
        Command::Run
    } else if string_is(name, "test") {
        Command::Test
    } else if string_is(name, "clean") {
        Command::Clean
    } else if string_is(name, "doctor") {
        Command::Doctor
    } else {
        return Err(CliError(crate::text::concat3("unknown command '", name, "'")));
    };
    let mut rest: Vec<String> = Vec::new();
    let mut i = start + 1;
    while i < args.len()
        invariant
            start < i <= args@.len(),
            rest@.len() == i - start - 1,
            forall|k: int| 0 <= k < rest@.len() ==> (#[trigger] rest@[k])@ == args@[start + 1 + k]@,
        decreases args@.len() - i,
    {
        rest.push(args[i].clone());
        i = i + 1;
    }
    Ok(Dispatch { command, args: rest })
}

} // verus!

verus! {

/// How many line feeds a byte sequence holds.
pub open spec fn newline_count(b: Seq<u8>) -> nat
    decreases b.len(),
{
    if b.len() == 0 {
        0
    } else {
        newline_count(b.drop_last()) + if b.last() == 10u8 { 1nat } else { 0nat }
    }
}

/// A UTF-8 continuation byte, which starts no character.
pub open spec fn is_continuation(x: u8) -> bool {
    0x80u8 <= x && x < 0xC0u8
}

/// How many characters follow the last line feed: the bytes there that
/// start a character.
pub open spec fn last_line_chars(b: Seq<u8>) -> nat
    decreases b.len(),
{
    if b.len() == 0 {
        0
    } else if b.last() == 10u8 {
        0
    } else {
        last_line_chars(b.drop_last()) + if is_continuation(b.last()) { 0nat } else { 1nat }
    }
}

/// The one-based line and column of byte `end`.
fn count_position(bytes: &[u8], end: usize) -> (r: (usize, usize))
    requires
        end <= bytes@.len(),
        end < usize::MAX,
    ensures
        r.0 == newline_count(bytes@.take(end as int)) + 1,
        r.1 == last_line_chars(bytes@.take(end as int)) + 1,
{
    let mut lines: usize = 0;
    let mut column: usize = 0;
    let mut i: usize = 0;
    while i < end
        invariant
            end <= bytes@.len(),
            end < usize::MAX,
            i <= end,
            lines == newline_count(bytes@.take(i as int)),
            column == last_line_chars(bytes@.take(i as int)),
            lines <= i,
            column <= i,
        decreases end - i,
    {
        proof {
            assert(bytes@.take((i + 1) as int).drop_last() =~= bytes@.take(i as int));
            assert(bytes@.take((i + 1) as int).last() == bytes@[i as int]);
        }
        let x = bytes[i];
        if x == 10u8 {
            lines = lines + 1;
            column = 0;
        } else if !(0x80u8 <= x && x < 0xC0u8) {
            column = column + 1;
        }
        i = i + 1;
    }
    (lines + 1, column + 1)
}

/// A one-based source position.
#[derive(Clone, Copy, Debug, PartialEq, Eq, Structural)]
pub struct PositionReport {
    pub line: usize,
    pub column: usize,
}

/// The one-based line and column of a byte offset, clamped to the source;
/// the column counts characters.
pub fn position(source: &str, offset: usize) -> (r: PositionReport)
    requires
        source.spec_bytes().len() < usize::MAX,
        vstd::utf8::is_char_boundary(source.spec_bytes(), if offset < source.spec_bytes().len() { offset as int } else { source.spec_bytes().len() as int }),
    ensures
        ({
            let o = if offset < source.spec_bytes().len() { offset as int } else { source.spec_bytes().len() as int };
            &&& r.line == newline_count(source.spec_bytes().take(o)) + 1
            &&& r.column == last_line_chars(source.spec_bytes().take(o)) + 1
        }),
{
    let bytes = source.as_bytes();
    let end = if offset < bytes.len() { offset } else { bytes.len() };
    let (line, column) = count_position(bytes, end);
    PositionReport { line, column }
}

/// The nearest character boundary of `b` at or before `k` (0 at the latest).
pub open spec fn boundary_at_or_before(b: Seq<u8>, k: int) -> int
    decreases k,
{
    if k <= 0 {
        0
    } else if vstd::utf8::is_char_boundary(b, k) {
        k
    } else {
        boundary_at_or_before(b, k - 1)
    }
}

/// The one-based line and column of a byte offset, moved back to the
/// nearest character boundary at or before it.
pub fn line_column(source: &str, offset: usize) -> (r: (usize, usize))
    requires
        source.spec_bytes().len() < usize::MAX,
    ensures
        ({
            let b = source.spec_bytes();
            let k = boundary_at_or_before(b, if offset < b.len() { offset as int } else { b.len() as int });
            &&& r.0 == newline_count(b.take(k)) + 1
            &&& r.1 == last_line_chars(b.take(k)) + 1
        }),
{
    let bytes = source.as_bytes();
    let mut bounded = if offset < bytes.len() { offset } else { bytes.len() };
    let ghost start = bounded as int;
    while bounded > 0 && !source.is_char_boundary(bounded)
        invariant
            bounded <= bytes@.len(),
            bytes@ == source.spec_bytes(),
            boundary_at_or_before(bytes@, bounded as int) == boundary_at_or_before(bytes@, start),
        decreases bounded,
    {
        bounded = bounded - 1;
    }
    let r = count_position(bytes, bounded);
    proof {
        let k = bounded as int;
        assert(boundary_at_or_before(bytes@, k) == k);
        assert(source.spec_bytes().take(k) == bytes@.take(k));
    }
    r
}

/// The name a phase is reported under.
pub open spec fn phase_text(phase: crate::DiagnosticPhase) -> Seq<char> {
    match phase {
        crate::DiagnosticPhase::Lex => "Lex"@,
        crate::DiagnosticPhase::Parse => "Parse"@,
        crate::DiagnosticPhase::TypeCheck => "TypeCheck"@,
        crate::DiagnosticPhase::Internal => "Internal"@,
    }
}

/// The name a phase is reported under.
pub fn phase_name(phase: crate::DiagnosticPhase) -> (s: &'static str)
    ensures
        s@ == phase_text(phase),
{
    match phase {
        crate::DiagnosticPhase::Lex => "Lex",
        crate::DiagnosticPhase::Parse => "Parse",
        crate::DiagnosticPhase::TypeCheck => "TypeCheck",
        crate::DiagnosticPhase::Internal => "Internal",
    }
}

/// `:line:column` of a byte offset, as `line_column` computes them.
pub open spec fn location_text(b: Seq<u8>, offset: int) -> Seq<char> {
    let k = boundary_at_or_before(b, if offset < b.len() { offset } else { b.len() as int });
    ":"@ + crate::text::decimal(newline_count(b.take(k)) + 1) + ":"@ + crate::text::decimal(last_line_chars(b.take(k)) + 1)
}

/// Appends `:line:column` of a byte offset.
pub fn push_location(s: &mut String, source: &str, offset: usize)
    requires
        source.spec_bytes().len() < usize::MAX,
    ensures
        final(s)@ == old(s)@ + location_text(source.spec_bytes(), offset as int),
{
    let ghost before = s@;
    let (line, column) = line_column(source, offset);
    push_char(s, ':');
    crate::text::push_count(s, line);
    push_char(s, ':');
    crate::text::push_count(s, column);
    proof {
        reveal_strlit(":");
        assert(s@ =~= before + location_text(source.spec_bytes(), offset as int));
    }
}

/// One rendered diagnostic: `path:line:column: Phase error: message`, or
/// `path: Phase error: message` without a span.
pub open spec fn diagnostic_line(path: Seq<char>, b: Seq<u8>, d: crate::Diagnostic) -> Seq<char> {
    path + (match d.span {
        Some(span) => location_text(b, span.start as int),
        None => Seq::empty(),
    }) + ": "@ + phase_text(d.phase) + " error: "@ + d.message@
}

/// Every diagnostic rendered, one per line.
pub open spec fn diagnostic_lines(path: Seq<char>, b: Seq<u8>, items: Seq<crate::Diagnostic>) -> Seq<char>
    decreases items.len(),
{
    if items.len() == 0 {
        Seq::empty()
    } else if items.len() == 1 {
        diagnostic_line(path, b, items[0])
    } else {
        diagnostic_lines(path, b, items.drop_last()) + "\n"@ + diagnostic_line(path, b, items.last())
    }
}

/// Renders every diagnostic as `path:line:column: Phase error: message`,
/// one per line, or `path: Phase error: message` without a span.
pub fn diagnostic_error(path: &str, source: &str, diagnostics: &crate::Diagnostics) -> (e: CliError)
    requires
        source.spec_bytes().len() < usize::MAX,
    ensures
        diagnostics.items@.len() == 0 ==> e.0@ == "Snacc compilation failed without a diagnostic"@,
        diagnostics.items@.len() > 0 ==> e.0@ == diagnostic_lines(path@, source.spec_bytes(), diagnostics.items@),
{
    let mut rendered = String::new();
    let mut i: usize = 0;
    while i < diagnostics.items.len()
        invariant
            source.spec_bytes().len() < usize::MAX,
            i <= diagnostics.items@.len(),
            rendered@ == diagnostic_lines(path@, source.spec_bytes(), diagnostics.items@.take(i as int)),
        decreases diagnostics.items@.len() - i,
    {
        let d = &diagnostics.items[i];
        let ghost before = rendered@;
        proof {
            reveal_strlit("\n");
            assert(diagnostics.items@.take(i + 1).drop_last() =~= diagnostics.items@.take(i as int));
            assert(diagnostics.items@.take(i + 1).last() == *d);
        }
        if i > 0 {
            push_char(&mut rendered, '\n');
        }
        let ghost sep = rendered@;
        push_str(&mut rendered, path);
        if let Some(span) = &d.span {
            push_location(&mut rendered, source, span.start);
        } else {
            assert(rendered@ =~= sep + path@ + Seq::<char>::empty());
        }
        let ghost mid = rendered@;
        push_str(&mut rendered, ": ");
        push_str(&mut rendered, phase_name(d.phase));
        push_str(&mut rendered, " error: ");
        push_string(&mut rendered, &d.message);
        proof {
            assert(rendered@ =~= sep + diagnostic_line(path@, source.spec_bytes(), *d));
            if i > 0 {
                assert(sep =~= before + "\n"@);
            } else {
                assert(sep =~= Seq::<char>::empty());
            }
        }
        i = i + 1;
    }
    proof {
        assert(diagnostics.items@.take(i as int) =~= diagnostics.items@);
    }
    if diagnostics.items.len() == 0 {
        rendered = owned("Snacc compilation failed without a diagnostic");
    }
    CliError(rendered)
}

/// Whether two byte sequences are equal, looking at every byte whatever
/// the earlier ones held, so the time taken does not depend on where they
/// first differ.
pub fn constant_time_eq(a: &str, b: &str) -> (r: bool)
    ensures
        r == (a.spec_bytes() == b.spec_bytes()),
        r == (a@ == b@),
{
    proof {
        vstd::utf8::encode_utf8_decode_utf8(a@);
        vstd::utf8::encode_utf8_decode_utf8(b@);
    }
    let x = a.as_bytes();
    let y = b.as_bytes();
    if x.len() != y.len() {
        return false;
    }
    let mut diff: u8 = 0;
    let mut i: usize = 0;
    while i < x.len()
        invariant
            x@.len() == y@.len(),
            i <= x@.len(),
            (diff == 0) == (forall|j: int| 0 <= j < i ==> x@[j] == y@[j]),
        decreases x@.len() - i,
    {
        let p = x[i];
        let q = y[i];
        let next = diff | (p ^ q);
        assert((next == 0) == (diff == 0 && p == q)) by (bit_vector)
            requires
                next == diff | (p ^ q),
        ;
        diff = next;
        i = i + 1;
    }
    proof {
        if diff == 0 {
            assert(x@ =~= y@);
        }
    }
    diff == 0
}

/// Captured output of a child process, kept to a limit.
#[derive(Debug)]
pub struct Captured {
    pub bytes: Vec<u8>,
    /// Whether anything was dropped to keep the limit.
    pub truncated: bool,
}

/// Keeps the part of one chunk that still fits under `limit`; reports
/// whether anything was dropped.
pub fn capture_chunk(captured: &mut Captured, chunk: &[u8], limit: usize) -> (dropped: bool)
    requires
        old(captured).bytes@.len() <= limit,
    ensures
        final(captured).bytes@ == old(captured).bytes@ + chunk@.take(
            if chunk@.len() <= limit - old(captured).bytes@.len() { chunk@.len() as int } else { limit - old(captured).bytes@.len() }),
        dropped == (old(captured).bytes@.len() + chunk@.len() > limit),
        final(captured).truncated == (old(captured).truncated || dropped),
{
    let room = limit - captured.bytes.len();
    let keep = if chunk.len() <= room { chunk.len() } else { room };
    let ghost before = captured.bytes@;
    let mut i: usize = 0;
    while i < keep
        invariant
            keep <= chunk@.len(),
            i <= keep,
            captured.bytes@ == before + chunk@.take(i as int),
            captured.truncated == old(captured).truncated,
        decreases keep - i,
    {
        captured.bytes.push(chunk[i]);
        proof { assert(chunk@.take((i + 1) as int) =~= chunk@.take(i as int).push(chunk@[i as int])); }
        i = i + 1;
    }
    let dropped = keep < chunk.len();
    if dropped {
        captured.truncated = true;
    }
    dropped
}

/// Every chunk joined in order.
pub open spec fn joined(chunks: Seq<Seq<u8>>) -> Seq<u8>
    decreases chunks.len(),
{
    if chunks.len() == 0 {
        Seq::empty()
    } else {
        joined(chunks.drop_last()) + chunks.last()
    }
}

/// Captures a stream read as chunks: the first `limit` bytes are kept, and
/// the capture is truncated exactly when the stream held more.
pub fn capture_stream(chunks: &Vec<Vec<u8>>, limit: usize) -> (c: Captured)
    ensures
        ({
            let all = joined(Seq::new(chunks@.len(), |i: int| chunks@[i]@));
            &&& c.bytes@ == all.take(if all.len() <= limit { all.len() as int } else { limit as int })
            &&& c.truncated == (all.len() > limit)
        }),
{
    let ghost view = Seq::new(chunks@.len(), |i: int| chunks@[i]@);
    let mut captured = Captured { bytes: Vec::new(), truncated: false };
    let mut i: usize = 0;
    while i < chunks.len()
        invariant
            i <= chunks@.len(),
            view == Seq::new(chunks@.len(), |i: int| chunks@[i]@),
            ({
                let all = joined(view.take(i as int));
                &&& captured.bytes@ == all.take(if all.len() <= limit { all.len() as int } else { limit as int })
                &&& captured.truncated == (all.len() > limit)
            }),
        decreases chunks@.len() - i,
    {
        let ghost prev = joined(view.take(i as int));
        proof {
            assert(view.take((i + 1) as int).drop_last() =~= view.take(i as int));
            assert(view.take((i + 1) as int).last() == chunks@[i as int]@);
        }
        capture_chunk(&mut captured, chunks[i].as_slice(), limit);
        proof {
            let all = joined(view.take((i + 1) as int));
            assert(all == prev + chunks@[i as int]@);
            let cut = if all.len() <= limit { all.len() as int } else { limit as int };
            assert(captured.bytes@ =~= all.take(cut));
        }
        i = i + 1;
    }
    proof { assert(view.take(chunks@.len() as int) =~= view); }
    captured
}

} // verus!

verus! {

/// The lines of a text: split at every line feed.
pub open spec fn lines_of(s: Seq<char>) -> Seq<Seq<char>>
    decreases s.len(),
{
    if s.len() == 0 {
        seq![Seq::<char>::empty()]
    } else {
        let p = lines_of(s.drop_last());
        if s.last() == '\n' {
            p.push(Seq::<char>::empty())
        } else {
            p.update(p.len() - 1, p.last().push(s.last()))
        }
    }
}

pub proof fn lemma_lines_nonempty(s: Seq<char>)
    ensures
        lines_of(s).len() >= 1,
    decreases s.len(),
{
    if s.len() > 0 {
        lemma_lines_nonempty(s.drop_last());
    }
}

pub open spec fn trim_start(l: Seq<char>) -> Seq<char>
    decreases l.len(),
{
    if l.len() > 0 && crate::lexer::is_ws(l[0]) {
        trim_start(l.drop_first())
    } else {
        l
    }
}

pub open spec fn trim_end(l: Seq<char>) -> Seq<char>
    decreases l.len(),
{
    if l.len() > 0 && crate::lexer::is_ws(l.last()) {
        trim_end(l.drop_last())
    } else {
        l
    }
}

/// A text without leading or trailing whitespace.
pub open spec fn trimmed(l: Seq<char>) -> Seq<char> {
    trim_end(trim_start(l))
}

/// A trimmed copy of a line.
pub fn trim_chars(l: &Vec<char>) -> (r: Vec<char>)
    ensures
        r@ == trimmed(l@),
{
    let n = l.len();
    let mut a: usize = 0;
    proof { assert(l@.skip(0) =~= l@); }
    while a < n && crate::lexer::ws(l[a])
        invariant
            n == l@.len(),
            a <= n,
            trim_start(l@) == trim_start(l@.skip(a as int)),
        decreases n - a,
    {
        proof { assert(l@.skip(a as int).drop_first() =~= l@.skip((a + 1) as int)); }
        a = a + 1;
    }
    let ghost m = l@.skip(a as int);
    proof { assert(trim_start(l@) == m); }
    let mut b: usize = n - a;
    proof { assert(m.take(b as int) =~= m); }
    while b > 0 && crate::lexer::ws(l[a + b - 1])
        invariant
            n == l@.len(),
            a <= n,
            b <= n - a,
            m == l@.skip(a as int),
            trim_end(m) == trim_end(m.take(b as int)),
        decreases b,
    {
        proof { assert(m.take(b as int).drop_last() =~= m.take((b - 1) as int)); }
        b = b - 1;
    }
    let mut r: Vec<char> = Vec::new();
    let mut k: usize = 0;
    while k < b
        invariant
            n == l@.len(),
            a <= n,
            b <= n - a,
            k <= b,
            m == l@.skip(a as int),
            r@ == m.take(k as int),
        decreases b - k,
    {
        r.push(l[a + k]);
        proof { assert(m.take((k + 1) as int) =~= m.take(k as int).push(m[k as int])); }
        k = k + 1;
    }
    proof { assert(r@ == m.take(b as int)); }
    r
}

/// Whether `w` occurs in `y`.
pub open spec fn occurs_in(y: Seq<char>, w: Seq<char>) -> bool {
    exists|i: int| 0 <= i && i + w.len() <= y.len() && #[trigger] y.subrange(i, i + w.len()) == w
}

fn occurs(y: &Vec<char>, w: &str) -> (r: bool)
    ensures
        r == occurs_in(y@, w@),
{
    let m = w.unicode_len();
    if m == 0 {
        proof { assert(y@.subrange(0, 0 + w@.len() as int) =~= w@); }
        return true;
    }
    if m > y.len() {
        proof {
            assert forall|i: int| 0 <= i && i + w@.len() <= y@.len() implies #[trigger] y@.subrange(i, i + w@.len()) != w@ by {}
        }
        return false;
    }
    let count = y.len() - m + 1;
    let mut i: usize = 0;
    while i < count
        invariant
            m == w@.len(),
            1 <= m <= y@.len(),
            count == y@.len() - m + 1,
            i <= count,
            forall|j: int| 0 <= j < i ==> #[trigger] y@.subrange(j, j + m) != w@,
        decreases count - i,
    {
        assert(i + m <= y.len());
        if crate::text::slice_is(y, i, i + m, w) {
            return true;
        }
        i = i + 1;
    }
    proof {
        assert forall|j: int| 0 <= j && j + w@.len() <= y@.len() implies #[trigger] y@.subrange(j, j + w@.len()) != w@ by {
            assert(j < i);
        }
    }
    false
}

/// The two lines that include the generated bridge assertions.
pub open spec fn include_pair(x: Seq<char>, y: Seq<char>) -> bool {
    &&& x == "#[cfg(snacc_bridge_assertions)]"@
    &&& y.len() >= 8 && y.take(8) == "include!"@
    &&& occurs_in(y, "SNACC_BRIDGE_ASSERTIONS"@)
}

/// Whether a host source declares the bridge-assertion include: a trimmed
/// line `#[cfg(snacc_bridge_assertions)]` directly followed by a trimmed
/// line that starts with `include!` and names `SNACC_BRIDGE_ASSERTIONS`.
pub fn declares_bridge_assertion_include(host_source: &str) -> (r: bool)
    ensures
        ({
            let ls = lines_of(host_source@);
            r == exists|i: int| 0 <= i && i + 1 < ls.len() && #[trigger] include_pair(trimmed(ls[i]), trimmed(ls[i + 1]))
        }),
{
    let chars = crate::text::chars_of(host_source);
    let n = chars.len();
    let mut done: Vec<Vec<char>> = Vec::new();
    let mut current: Vec<char> = Vec::new();
    let mut i: usize = 0;
    while i < n
        invariant
            n == chars@.len(),
            i <= n,
            Seq::new(done@.len(), |k: int| done@[k]@).push(current@) == lines_of(chars@.take(i as int)),
        decreases n - i,
    {
        let ghost before = Seq::new(done@.len(), |k: int| done@[k]@);
        let ghost cur = current@;
        proof {
            assert(chars@.take((i + 1) as int).drop_last() =~= chars@.take(i as int));
            assert(chars@.take((i + 1) as int).last() == chars@[i as int]);
            lemma_lines_nonempty(chars@.take(i as int));
        }
        if chars[i] == '\n' {
            done.push(current);
            current = Vec::new();
            proof {
                assert(Seq::new(done@.len(), |k: int| done@[k]@) =~= before.push(cur));
                assert(current@ =~= Seq::<char>::empty());
            }
        } else {
            current.push(chars[i]);
            proof {
                assert(Seq::new(done@.len(), |k: int| done@[k]@) =~= before);
                let p = lines_of(chars@.take(i as int));
                assert(p == before.push(cur));
                assert(before.push(current@) =~= p.update(p.len() - 1, p.last().push(chars@[i as int])));
            }
        }
        i = i + 1;
    }
    done.push(current);
    let ghost ls = lines_of(host_source@);
    proof {
        assert(chars@.take(n as int) =~= chars@);
        assert(Seq::new(done@.len(), |k: int| done@[k]@) =~= ls);
    }
    let mut previous: Vec<char> = Vec::new();
    let mut k: usize = 0;
    while k < done.len()
        invariant
            ls == lines_of(host_source@),
            ls == Seq::new(done@.len(), |j: int| done@[j]@),
            k <= done@.len(),
            k > 0 ==> previous@ == trimmed(ls[k - 1]),
            forall|j: int| 0 <= j && j + 1 < k ==> !#[trigger] include_pair(trimmed(ls[j]), trimmed(ls[j + 1])),
        decreases done@.len() - k,
    {
        let line = trim_chars(&done[k]);
        proof { assert(ls[k as int] == done@[k as int]@); }
        if k > 0 {
            let first = crate::text::slice_is(&previous, 0, previous.len(), "#[cfg(snacc_bridge_assertions)]");
            let second = line.len() >= 8 && crate::text::slice_is(&line, 0, 8, "include!");
            let third = occurs(&line, "SNACC_BRIDGE_ASSERTIONS");
            proof {
                assert(previous@.subrange(0, previous@.len() as int) =~= previous@);
                assert(line@.len() >= 8 ==> line@.subrange(0, 8) =~= line@.take(8));
            }
            if first && second && third {
                proof { assert(include_pair(trimmed(ls[k - 1]), trimmed(ls[(k - 1) + 1]))); }
                return true;
            }
        }
        previous = line;
        k = k + 1;
    }
    false
}

} // verus!

verus! {

/// The arguments of the stand-alone compiler.
#[derive(Debug)]
pub struct Cli {
    pub input: String,
    pub output: Option<String>,
}

/// The view of an optional text.
pub open spec fn text_option(o: Option<String>) -> Option<Seq<char>> {
    match o {
        Some(s) => Some(s@),
        None => None,
    }
}

/// What the compiler's arguments from `index` on give, with the input and
/// output seen so far: the input and output, or the message of the first
/// argument that cannot be accepted.
pub open spec fn cli_outcome(
    args: Seq<Seq<char>>,
    index: int,
    input: Option<Seq<char>>,
    output: Option<Seq<char>>,
) -> Result<(Seq<char>, Option<Seq<char>>), Seq<char>>
    decreases args.len() - index,
{
    if index < 0 || index >= args.len() {
        match input {
            Some(i) => Ok((i, output)),
            None => Err("no input file was provided"@),
        }
    } else if args[index] == "-o"@ {
        if output is Some {
            Err("option '-o' was provided more than once"@)
        } else if index + 1 == args.len() || dashed(args[index + 1]) {
            Err("option '-o' requires an output path"@)
        } else {
            cli_outcome(args, index + 2, input, Some(args[index + 1]))
        }
    } else if dashed(args[index]) {
        Err("unknown option '"@ + args[index] + "'"@)
    } else if input is Some {
        Err("only one input file may be provided"@)
    } else {
        cli_outcome(args, index + 1, Some(args[index]), output)
    }
}

/// Reads `<input> [-o <output>]` in any order.
pub fn parse_cli(args: Vec<String>) -> (r: Result<Cli, String>)
    ensures
        ({
            let expected = cli_outcome(args@.map_values(|a: String| a@), 0, None, None);
            match r {
                Ok(c) => expected == Ok::<(Seq<char>, Option<Seq<char>>), Seq<char>>((c.input@, text_option(c.output))),
                Err(m) => expected == Err::<(Seq<char>, Option<Seq<char>>), Seq<char>>(m@),
            }
        }),
{
    let ghost views = args@.map_values(|a: String| a@);
    let mut input: Option<String> = None;
    let mut output: Option<String> = None;
    let mut index: usize = 0;
    while index < args.len()
        invariant
            index <= args@.len(),
            views == args@.map_values(|a: String| a@),
            cli_outcome(views, index as int, text_option(input), text_option(output))
                == cli_outcome(views, 0, None, None),
        decreases args@.len() - index,
    {
        let arg = &args[index];
        proof { assert(views[index as int] == arg@); }
        if string_is(arg, "-o") {
            if output.is_some() {
                return Err(owned("option '-o' was provided more than once"));
            }
            index = index + 1;
            if index == args.len() || starts_with_dash(&args[index]) {
                return Err(owned("option '-o' requires an output path"));
            }
            proof { assert(views[index as int] == args@[index as int]@); }
            output = Some(args[index].clone());
            proof { assert(text_option(output) == Some(views[index as int])); }
        } else if starts_with_dash(arg) {
            let mut m = owned("unknown option '");
            push_string(&mut m, arg);
            push_str(&mut m, "'");
            return Err(m);
        } else if input.is_some() {
            return Err(owned("only one input file may be provided"));
        } else {
            input = Some(arg.clone());
            proof { assert(text_option(input) == Some(views[index as int])); }
        }
        index = index + 1;
    }
    match input {
        Some(i) => Ok(Cli { input: i, output }),
        None => Err(owned("no input file was provided")),
    }
}

} // verus!

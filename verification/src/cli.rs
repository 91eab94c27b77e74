//! The sidecar's command line and the resolution of the config path.
//!
//! ```text
//! previz-receiver --config <config.json> [--shm previz_volume]
//!                 [--universes-per-layer 3] [--quiet]
//! ```

use vstd::prelude::*;

use crate::decimal::{decimal_text, lemma_parse_decimal_text, parse_unsigned, parse_usize};
use crate::volume::DEFAULT_UNIVERSES_PER_LAYER;

verus! {

/// The settings of one run.
#[derive(Debug, Clone, PartialEq, Eq)]
pub struct Args {
    /// Path of the configuration file (required).
    pub config: String,
    /// Name of the shared-memory object.
    pub shm: String,
    /// Universes per z-layer; must match the sender.
    pub universes_per_layer: usize,
    /// Suppress per-listener and rate logging.
    pub quiet: bool,
}

/// What the command line asks for.
#[derive(Debug, Clone, PartialEq, Eq)]
pub enum Command {
    /// Run the receiver with these settings.
    Run(Args),
    /// Print the usage line and exit successfully.
    Help,
}

/// A flag that takes a value.
#[derive(Debug, Clone, Copy, PartialEq, Eq, Structural)]
pub enum Flag {
    Config,
    Shm,
    UniversesPerLayer,
}

/// Why a command line is refused.
#[derive(Debug, Clone, PartialEq, Eq)]
pub enum ArgsError {
    /// The flag is the last argument, with no value after it.
    MissingValue(Flag),
    /// The value of `--universes-per-layer` is not a decimal `usize`.
    UniversesPerLayerNotInteger,
    /// An argument that is no known flag.
    Unknown(String),
    /// No `--config` was given.
    ConfigRequired,
}

pub enum CommandModel {
    Run { config: Seq<char>, shm: Seq<char>, universes_per_layer: usize, quiet: bool },
    Help,
}

pub enum ArgsErrorModel {
    MissingValue(Flag),
    UniversesPerLayerNotInteger,
    Unknown(Seq<char>),
    ConfigRequired,
}

impl View for Command {
    type V = CommandModel;

    open spec fn view(&self) -> CommandModel {
        match self {
            Command::Run(a) => CommandModel::Run {
                config: a.config@,
                shm: a.shm@,
                universes_per_layer: a.universes_per_layer,
                quiet: a.quiet,
            },
            Command::Help => CommandModel::Help,
        }
    }
}

impl View for ArgsError {
    type V = ArgsErrorModel;

    open spec fn view(&self) -> ArgsErrorModel {
        match self {
            ArgsError::MissingValue(f) => ArgsErrorModel::MissingValue(*f),
            ArgsError::UniversesPerLayerNotInteger => ArgsErrorModel::UniversesPerLayerNotInteger,
            ArgsError::Unknown(a) => ArgsErrorModel::Unknown(a@),
            ArgsError::ConfigRequired => ArgsErrorModel::ConfigRequired,
        }
    }
}

pub open spec fn command_result_view(r: Result<Command, ArgsError>) -> Result<
    CommandModel,
    ArgsErrorModel,
> {
    match r {
        Ok(c) => Ok(c@),
        Err(e) => Err(e@),
    }
}

/// The settings gathered so far while reading the arguments.
pub struct ArgsState {
    pub config: Option<Seq<char>>,
    pub shm: Seq<char>,
    pub universes_per_layer: usize,
    pub quiet: bool,
}

/// The settings before any argument is read.
pub open spec fn default_args_state() -> ArgsState {
    ArgsState {
        config: None,
        shm: "previz_volume"@,
        universes_per_layer: DEFAULT_UNIVERSES_PER_LAYER,
        quiet: false,
    }
}

/// Reads `args` from position `i` on, left to right: a flag that takes a
/// value consumes the next argument whatever it is, a later flag overrides an
/// earlier one, `-h`/`--help` asks for the usage at once, and the first
/// unknown argument or missing value is the error.
pub open spec fn scan_args(args: Seq<Seq<char>>, i: int, st: ArgsState) -> Result<
    CommandModel,
    ArgsErrorModel,
>
    decreases args.len() - i,
{
    if i < 0 || i >= args.len() {
        match st.config {
            Some(c) => Ok(
                CommandModel::Run {
                    config: c,
                    shm: st.shm,
                    universes_per_layer: st.universes_per_layer,
                    quiet: st.quiet,
                },
            ),
            None => Err(ArgsErrorModel::ConfigRequired),
        }
    } else {
        let a = args[i];
        if a == "--config"@ {
            if i + 1 < args.len() {
                scan_args(args, i + 2, ArgsState { config: Some(args[i + 1]), ..st })
            } else {
                Err(ArgsErrorModel::MissingValue(Flag::Config))
            }
        } else if a == "--shm"@ {
            if i + 1 < args.len() {
                scan_args(args, i + 2, ArgsState { shm: args[i + 1], ..st })
            } else {
                Err(ArgsErrorModel::MissingValue(Flag::Shm))
            }
        } else if a == "--universes-per-layer"@ {
            if i + 1 < args.len() {
                match parse_unsigned(args[i + 1], usize::MAX as int) {
                    Ok(v) => scan_args(
                        args,
                        i + 2,
                        ArgsState { universes_per_layer: v as usize, ..st },
                    ),
                    Err(_) => Err(ArgsErrorModel::UniversesPerLayerNotInteger),
                }
            } else {
                Err(ArgsErrorModel::MissingValue(Flag::UniversesPerLayer))
            }
        } else if a == "--quiet"@ {
            scan_args(args, i + 1, ArgsState { quiet: true, ..st })
        } else if a == "-h"@ || a == "--help"@ {
            Ok(CommandModel::Help)
        } else {
            Err(ArgsErrorModel::Unknown(a))
        }
    }
}

pub open spec fn string_views(args: Seq<String>) -> Seq<Seq<char>> {
    args.map_values(|s: String| s@)
}

/// Whether two texts are equal, character by character.
pub fn str_eq(a: &str, b: &str) -> (r: bool)
    ensures
        r == (a@ == b@),
{
    let n = a.unicode_len();
    if n != b.unicode_len() {
        return false;
    }
    let mut i: usize = 0;
    while i < n
        invariant
            n == a@.len(),
            n == b@.len(),
            i <= n,
            forall|k: int| 0 <= k < i ==> a@[k] == b@[k],
        decreases n - i,
    {
        if a.get_char(i) != b.get_char(i) {
            return false;
        }
        i = i + 1;
    }
    assert(a@ =~= b@);
    true
}

/// Reads the command line (without the program name).
pub fn parse_args(args: &Vec<String>) -> (r: Result<Command, ArgsError>)
    ensures
        command_result_view(r) == scan_args(string_views(args@), 0, default_args_state()),
{
    let ghost sv = string_views(args@);
    let mut config: Option<String> = None;
    let mut shm: String = "previz_volume".to_owned();
    let mut upl: usize = DEFAULT_UNIVERSES_PER_LAYER;
    let mut quiet = false;
    let mut i: usize = 0;
    while i < args.len()
        invariant
            i <= args@.len(),
            sv == string_views(args@),
            scan_args(sv, 0, default_args_state()) == scan_args(
                sv,
                i as int,
                ArgsState {
                    config: match config {
                        Some(c) => Some(c@),
                        None => None,
                    },
                    shm: shm@,
                    universes_per_layer: upl,
                    quiet,
                },
            ),
        decreases args@.len() - i,
    {
        let a = args[i].as_str();
        assert(sv[i as int] == a@);
        if str_eq(a, "--config") {
            if i + 1 < args.len() {
                assert(sv[i + 1] == args@[i + 1]@);
                config = Some(args[i + 1].clone());
                i = i + 2;
            } else {
                return Err(ArgsError::MissingValue(Flag::Config));
            }
        } else if str_eq(a, "--shm") {
            if i + 1 < args.len() {
                assert(sv[i + 1] == args@[i + 1]@);
                shm = args[i + 1].clone();
                i = i + 2;
            } else {
                return Err(ArgsError::MissingValue(Flag::Shm));
            }
        } else if str_eq(a, "--universes-per-layer") {
            if i + 1 < args.len() {
                assert(sv[i + 1] == args@[i + 1]@);
                match parse_usize(args[i + 1].as_str()) {
                    Ok(v) => {
                        upl = v;
                        i = i + 2;
                    },
                    Err(_) => {
                        return Err(ArgsError::UniversesPerLayerNotInteger);
                    },
                }
            } else {
                return Err(ArgsError::MissingValue(Flag::UniversesPerLayer));
            }
        } else if str_eq(a, "--quiet") {
            quiet = true;
            i = i + 1;
        } else if str_eq(a, "-h") || str_eq(a, "--help") {
            return Ok(Command::Help);
        } else {
            return Err(ArgsError::Unknown(a.to_owned()));
        }
    }
    match config {
        Some(c) => Ok(Command::Run(Args { config: c, shm, universes_per_layer: upl, quiet })),
        None => Err(ArgsError::ConfigRequired),
    }
}

/// Where a possibly relative path points, given the directory the user
/// invoked the program from: an absolute path stands as it is; a relative
/// one is joined to a non-empty working directory with one `/` between them;
/// without such a directory it stands as it is.
pub open spec fn resolved_path(p: Seq<char>, working_dir: Option<Seq<char>>) -> Seq<char> {
    if p.len() > 0 && p[0] == '/' {
        p
    } else {
        match working_dir {
            Some(d) => if d.len() == 0 {
                p
            } else if d.last() == '/' {
                d + p
            } else {
                d + seq!['/'] + p
            },
            None => p,
        }
    }
}

/// Resolves a possibly relative path against the invocation directory.
pub fn resolve_path(p: &str, working_dir: Option<&str>) -> (r: String)
    ensures
        r@ == resolved_path(
            p@,
            match working_dir {
                Some(d) => Some(d@),
                None => None,
            },
        ),
{
    let n = p.unicode_len();
    if n > 0 && p.get_char(0) == '/' {
        return p.to_owned();
    }
    match working_dir {
        None => p.to_owned(),
        Some(d) => {
            let m = d.unicode_len();
            if m == 0 {
                return p.to_owned();
            }
            let mut r = d.to_owned();
            if d.get_char(m - 1) != '/' {
                r.append("/");
                proof {
                    reveal_strlit("/");
                }
            }
            r.append(p);
            r
        },
    }
}

// --- Laws ------------------------------------------------------------------

/// Whether a command line reads as a run.
pub open spec fn runs(r: Result<CommandModel, ArgsErrorModel>) -> bool {
    r matches Ok(CommandModel::Run { .. })
}

proof fn lemma_append_flag(
    a: Seq<Seq<char>>,
    i: int,
    st: ArgsState,
    flag: Seq<char>,
    value: Seq<char>,
    v: usize,
)
    requires
        0 <= i <= a.len(),
        runs(scan_args(a, i, st)),
        flag == "--config"@ || flag == "--shm"@ || (flag == "--universes-per-layer"@ && value
            == decimal_text(v as nat)),
    ensures
        ({
            let r = scan_args(a, i, st)->Ok_0;
            let s = scan_args(a + seq![flag, value], i, st);
            &&& runs(s)
            &&& s->Ok_0->quiet == r->quiet
            &&& flag == "--config"@ ==> s->Ok_0->config == value && s->Ok_0->universes_per_layer
                == r->universes_per_layer && s->Ok_0->shm == r->shm
            &&& flag == "--shm"@ ==> s->Ok_0->shm == value && s->Ok_0->universes_per_layer
                == r->universes_per_layer && s->Ok_0->config == r->config
            &&& flag == "--universes-per-layer"@ ==> s->Ok_0->universes_per_layer == v
                && s->Ok_0->config == r->config && s->Ok_0->shm == r->shm
        }),
    decreases a.len() - i,
{
    let b = a + seq![flag, value];
    reveal_strlit("--config");
    reveal_strlit("--shm");
    reveal_strlit("--universes-per-layer");
    reveal_strlit("--quiet");
    reveal_strlit("-h");
    reveal_strlit("--help");
    if i < a.len() {
        assert(b[i] == a[i]);
        if i + 1 < a.len() {
            assert(b[i + 1] == a[i + 1]);
        }
        let x = a[i];
        if x == "--config"@ {
            lemma_append_flag(a, i + 2, ArgsState { config: Some(a[i + 1]), ..st }, flag, value, v);
        } else if x == "--shm"@ {
            lemma_append_flag(a, i + 2, ArgsState { shm: a[i + 1], ..st }, flag, value, v);
        } else if x == "--universes-per-layer"@ {
            let w = parse_unsigned(a[i + 1], usize::MAX as int)->Ok_0;
            lemma_append_flag(
                a,
                i + 2,
                ArgsState { universes_per_layer: w as usize, ..st },
                flag,
                value,
                v,
            );
        } else if x == "--quiet"@ {
            lemma_append_flag(a, i + 1, ArgsState { quiet: true, ..st }, flag, value, v);
        }
    } else {
        assert(b.len() == a.len() + 2);
        assert(b[i] == flag);
        assert(b[i + 1] == value);
        let c = st.config->Some_0;
        if flag == "--universes-per-layer"@ {
            lemma_parse_decimal_text(v as nat, usize::MAX as int);
            assert(flag != "--config"@);
            assert(flag != "--shm"@);
            let st2 = ArgsState { universes_per_layer: v, ..st };
            assert(scan_args(b, i + 2, st2) == Ok::<CommandModel, ArgsErrorModel>(
                CommandModel::Run { config: c, shm: st.shm, universes_per_layer: v, quiet: st.quiet },
            ));
        } else if flag == "--shm"@ {
            assert(flag != "--config"@);
            let st2 = ArgsState { shm: value, ..st };
            assert(scan_args(b, i + 2, st2) == Ok::<CommandModel, ArgsErrorModel>(
                CommandModel::Run {
                    config: c,
                    shm: value,
                    universes_per_layer: st.universes_per_layer,
                    quiet: st.quiet,
                },
            ));
        } else {
            let st2 = ArgsState { config: Some(value), ..st };
            assert(scan_args(b, i + 2, st2) == Ok::<CommandModel, ArgsErrorModel>(
                CommandModel::Run {
                    config: value,
                    shm: st.shm,
                    universes_per_layer: st.universes_per_layer,
                    quiet: st.quiet,
                },
            ));
        }
    }
}

/// The last `--universes-per-layer` wins: a command line that runs, followed
/// by `--universes-per-layer T` with `T` the decimal text of `v`, runs with
/// `v` universes per layer and every other setting unchanged.
pub proof fn lemma_last_universes_per_layer_wins(args: Seq<Seq<char>>, v: usize)
    requires
        runs(scan_args(args, 0, default_args_state())),
    ensures
        ({
            let r = scan_args(args, 0, default_args_state())->Ok_0;
            let s = scan_args(
                args + seq!["--universes-per-layer"@, decimal_text(v as nat)],
                0,
                default_args_state(),
            );
            &&& runs(s)
            &&& s->Ok_0->universes_per_layer == v
            &&& s->Ok_0->config == r->config
            &&& s->Ok_0->shm == r->shm
            &&& s->Ok_0->quiet == r->quiet
        }),
{
    lemma_append_flag(
        args,
        0,
        default_args_state(),
        "--universes-per-layer"@,
        decimal_text(v as nat),
        v,
    );
}

/// The last `--config` wins: a command line that runs, followed by
/// `--config P`, runs with config path `P` and every other setting unchanged.
pub proof fn lemma_last_config_wins(args: Seq<Seq<char>>, path: Seq<char>)
    requires
        runs(scan_args(args, 0, default_args_state())),
    ensures
        ({
            let r = scan_args(args, 0, default_args_state())->Ok_0;
            let s = scan_args(args + seq!["--config"@, path], 0, default_args_state());
            &&& runs(s)
            &&& s->Ok_0->config == path
            &&& s->Ok_0->universes_per_layer == r->universes_per_layer
            &&& s->Ok_0->shm == r->shm
            &&& s->Ok_0->quiet == r->quiet
        }),
{
    lemma_append_flag(args, 0, default_args_state(), "--config"@, path, 0);
}

/// The last `--shm` wins: a command line that runs, followed by `--shm N`,
/// runs with shared-memory name `N` and every other setting unchanged.
pub proof fn lemma_last_shm_wins(args: Seq<Seq<char>>, name: Seq<char>)
    requires
        runs(scan_args(args, 0, default_args_state())),
    ensures
        ({
            let r = scan_args(args, 0, default_args_state())->Ok_0;
            let s = scan_args(args + seq!["--shm"@, name], 0, default_args_state());
            &&& runs(s)
            &&& s->Ok_0->shm == name
            &&& s->Ok_0->config == r->config
            &&& s->Ok_0->universes_per_layer == r->universes_per_layer
            &&& s->Ok_0->quiet == r->quiet
        }),
{
    lemma_append_flag(args, 0, default_args_state(), "--shm"@, name, 0);
}

proof fn lemma_append_quiet(a: Seq<Seq<char>>, i: int, st: ArgsState)
    requires
        0 <= i <= a.len(),
        runs(scan_args(a, i, st)),
    ensures
        ({
            let r = scan_args(a, i, st)->Ok_0;
            let s = scan_args(a.push("--quiet"@), i, st);
            &&& runs(s)
            &&& s->Ok_0->quiet
            &&& s->Ok_0->config == r->config
            &&& s->Ok_0->shm == r->shm
            &&& s->Ok_0->universes_per_layer == r->universes_per_layer
        }),
    decreases a.len() - i,
{
    let b = a.push("--quiet"@);
    reveal_strlit("--config");
    reveal_strlit("--shm");
    reveal_strlit("--universes-per-layer");
    reveal_strlit("--quiet");
    if i < a.len() {
        assert(b[i] == a[i]);
        if i + 1 < a.len() {
            assert(b[i + 1] == a[i + 1]);
        }
        let x = a[i];
        if x == "--config"@ {
            lemma_append_quiet(a, i + 2, ArgsState { config: Some(a[i + 1]), ..st });
        } else if x == "--shm"@ {
            lemma_append_quiet(a, i + 2, ArgsState { shm: a[i + 1], ..st });
        } else if x == "--universes-per-layer"@ {
            let w = parse_unsigned(a[i + 1], usize::MAX as int)->Ok_0;
            lemma_append_quiet(a, i + 2, ArgsState { universes_per_layer: w as usize, ..st });
        } else if x == "--quiet"@ {
            lemma_append_quiet(a, i + 1, ArgsState { quiet: true, ..st });
        }
    } else {
        assert(b[i] == "--quiet"@);
        assert("--quiet"@ != "--config"@);
        assert("--quiet"@ != "--shm"@);
        assert("--quiet"@ != "--universes-per-layer"@);
        assert(scan_args(b, i + 1, ArgsState { quiet: true, ..st }) == Ok::<
            CommandModel,
            ArgsErrorModel,
        >(
            CommandModel::Run {
                config: st.config->Some_0,
                shm: st.shm,
                universes_per_layer: st.universes_per_layer,
                quiet: true,
            },
        ));
    }
}

/// `--quiet` at the end of a command line that runs makes the run quiet and
/// changes nothing else.
pub proof fn lemma_quiet_appended(args: Seq<Seq<char>>)
    requires
        runs(scan_args(args, 0, default_args_state())),
    ensures
        ({
            let r = scan_args(args, 0, default_args_state())->Ok_0;
            let s = scan_args(args.push("--quiet"@), 0, default_args_state());
            &&& runs(s)
            &&& s->Ok_0->quiet
            &&& s->Ok_0->config == r->config
            &&& s->Ok_0->shm == r->shm
            &&& s->Ok_0->universes_per_layer == r->universes_per_layer
        }),
{
    lemma_append_quiet(args, 0, default_args_state());
}

/// An absolute path ignores the working directory; a relative one, given a
/// non-empty working directory, becomes that directory, then exactly one `/`
/// between them, then the path itself; without one it stands as it is.
pub proof fn lemma_resolved_path_shape(p: Seq<char>, working_dir: Option<Seq<char>>)
    ensures
        (p.len() > 0 && p[0] == '/') ==> resolved_path(p, working_dir) == p,
        !(p.len() > 0 && p[0] == '/') ==> match working_dir {
            Some(d) if d.len() > 0 => {
                let r = resolved_path(p, working_dir);
                let cut = r.len() - p.len();
                &&& r.subrange(cut, r.len() as int) == p
                &&& r.subrange(0, d.len() as int) == d
                &&& cut >= 1 && r[cut - 1] == '/'
                &&& (cut == d.len() || (cut == d.len() + 1 && d.last() != '/'))
            },
            _ => resolved_path(p, working_dir) == p,
        },
{
    if !(p.len() > 0 && p[0] == '/') {
        if let Some(d) = working_dir {
            if d.len() > 0 {
                let r = resolved_path(p, working_dir);
                let cut = r.len() - p.len();
                assert(r.subrange(cut, r.len() as int) =~= p);
                assert(r.subrange(0, d.len() as int) =~= d);
            }
        }
    }
}

} // verus!

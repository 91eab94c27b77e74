use previz_receiver::cli::{parse_args, resolve_path, str_eq, Args, ArgsError, Command, Flag};
use previz_receiver::decimal::{parse_decimal, parse_u16, parse_usize, IntErrorKind};

fn args(list: &[&str]) -> Vec<String> {
    list.iter().map(|s| s.to_string()).collect()
}

fn run(config: &str, shm: &str, upl: usize, quiet: bool) -> Command {
    Command::Run(Args {
        config: config.to_string(),
        shm: shm.to_string(),
        universes_per_layer: upl,
        quiet,
    })
}

#[test]
fn defaults_apply() {
    assert_eq!(parse_args(&args(&["--config", "c.json"])), Ok(run("c.json", "previz_volume", 3, false)));
}

#[test]
fn every_flag_is_read() {
    assert_eq!(
        parse_args(&args(&["--quiet", "--shm", "x", "--universes-per-layer", "4", "--config", "a"])),
        Ok(run("a", "x", 4, true))
    );
}

#[test]
fn later_flag_overrides_and_values_are_taken_verbatim() {
    assert_eq!(
        parse_args(&args(&["--config", "a", "--config", "--quiet"])),
        Ok(run("--quiet", "previz_volume", 3, false))
    );
}

#[test]
fn argument_errors() {
    assert_eq!(parse_args(&args(&[])), Err(ArgsError::ConfigRequired));
    assert_eq!(parse_args(&args(&["--config"])), Err(ArgsError::MissingValue(Flag::Config)));
    assert_eq!(parse_args(&args(&["--shm"])), Err(ArgsError::MissingValue(Flag::Shm)));
    assert_eq!(
        parse_args(&args(&["--universes-per-layer"])),
        Err(ArgsError::MissingValue(Flag::UniversesPerLayer))
    );
    assert_eq!(
        parse_args(&args(&["--universes-per-layer", "three"])),
        Err(ArgsError::UniversesPerLayerNotInteger)
    );
    assert_eq!(parse_args(&args(&["--bogus", "--help"])), Err(ArgsError::Unknown("--bogus".to_string())));
}

#[test]
fn help_wins_over_later_errors() {
    assert_eq!(parse_args(&args(&["-h", "--bogus"])), Ok(Command::Help));
    assert_eq!(parse_args(&args(&["--quiet", "--help"])), Ok(Command::Help));
}

#[test]
fn paths() {
    assert_eq!(resolve_path("/abs/c.json", Some("/home")), "/abs/c.json");
    assert_eq!(resolve_path("configs/c.json", Some("/home/u")), "/home/u/configs/c.json");
    assert_eq!(resolve_path("configs/c.json", Some("/home/u/")), "/home/u/configs/c.json");
    assert_eq!(resolve_path("configs/c.json", Some("")), "configs/c.json");
    assert_eq!(resolve_path("configs/c.json", None), "configs/c.json");
    assert_eq!(resolve_path("", Some("/w")), "/w/");
}

#[test]
fn decimal_grammar() {
    assert_eq!(parse_usize("0"), Ok(0));
    assert_eq!(parse_usize("+42"), Ok(42));
    assert_eq!(parse_usize("007"), Ok(7));
    assert_eq!(parse_usize(""), Err(IntErrorKind::Empty));
    assert_eq!(parse_usize("+"), Err(IntErrorKind::InvalidDigit));
    assert_eq!(parse_usize("-"), Err(IntErrorKind::InvalidDigit));
    assert_eq!(parse_usize("-1"), Err(IntErrorKind::InvalidDigit));
    assert_eq!(parse_usize("1 "), Err(IntErrorKind::InvalidDigit));
    assert_eq!(parse_usize(&usize::MAX.to_string()), Ok(usize::MAX));
    assert_eq!(parse_usize("18446744073709551616"), Err(IntErrorKind::PosOverflow));
    assert_eq!(parse_u16("65535"), Ok(65535));
    // Overflow is seen before a later invalid character, as std does.
    assert_eq!(parse_u16("99999x"), Err(IntErrorKind::PosOverflow));
    assert_eq!(parse_u16("9999x"), Err(IntErrorKind::InvalidDigit));
    assert_eq!(parse_decimal("250", 255), Ok(250));
    assert_eq!(parse_decimal("256", 255), Err(IntErrorKind::PosOverflow));
}

#[test]
fn decimal_agrees_with_std() {
    for s in ["", "+", "-", "0", "+0", "-0", "65535", "65536", "0065535", "1_0", "١", "12a", "+-1"] {
        let std_u16 = s.parse::<u16>().map_err(|e| e.kind().clone());
        let ours = parse_u16(s).map_err(|e| match e {
            IntErrorKind::Empty => std::num::IntErrorKind::Empty,
            IntErrorKind::InvalidDigit => std::num::IntErrorKind::InvalidDigit,
            IntErrorKind::PosOverflow => std::num::IntErrorKind::PosOverflow,
        });
        assert_eq!(ours, std_u16, "input {s:?}");
    }
}

#[test]
fn text_equality() {
    assert!(str_eq("--config", "--config"));
    assert!(!str_eq("--config", "--confi"));
    assert!(!str_eq("ab", "ba"));
    assert!(str_eq("", ""));
}

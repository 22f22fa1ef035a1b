use cleave::args::{parse_args, parse_count, Args, Invocation, Progress, Reader};

fn words(args: &[&str]) -> Vec<String> {
    args.iter().map(|arg| arg.to_string()).collect()
}

fn run(max_tiles: usize, apply_on_move: bool) -> Invocation {
    Invocation::Run(Args { max_tiles, apply_on_move })
}

#[test]
fn without_options_two_windows_are_managed_and_moves_followed() {
    assert_eq!(parse_args(&words(&[])), run(2, true));
}

#[test]
fn options_set_what_they_name() {
    assert_eq!(parse_args(&words(&["-n", "6"])), run(6, true));
    assert_eq!(parse_args(&words(&["-M"])), run(2, false));
    assert_eq!(parse_args(&words(&["--no-move"])), run(2, false));
    assert_eq!(parse_args(&words(&["-M", "-n", "8"])), run(8, false));
    assert_eq!(parse_args(&words(&["-n", "8", "--no-move", "-M"])), run(8, false));
}

#[test]
fn a_later_count_replaces_an_earlier_one() {
    assert_eq!(parse_args(&words(&["-n", "3", "-n", "1"])), run(1, true));
}

#[test]
fn help_is_asked_for() {
    assert_eq!(parse_args(&words(&["-h"])), Invocation::Help);
    assert_eq!(parse_args(&words(&["--help"])), Invocation::Help);
    assert_eq!(parse_args(&words(&["-n", "4", "-h", "--bogus"])), Invocation::Help);
}

#[test]
fn a_count_must_be_a_number_of_one_or_more() {
    for bad in ["0", "-1", "", "+", "two", "1.5", " 3", "3 ", "00", "+0", "0x10", "1_000"] {
        assert_eq!(parse_args(&words(&["-n", bad])), Invocation::BadCount);
    }
    assert_eq!(parse_args(&words(&["-n"])), Invocation::BadCount);
    assert_eq!(parse_args(&words(&["-n", "-h"])), Invocation::BadCount);
    assert_eq!(parse_args(&words(&["-n", "0", "-h"])), Invocation::BadCount);
}

#[test]
fn an_unknown_option_is_named() {
    let unknown = |option: &str| Invocation::UnknownOption(option.to_string());
    assert_eq!(parse_args(&words(&["--bogus"])), unknown("--bogus"));
    assert_eq!(parse_args(&words(&["-M", "6", "-h"])), unknown("6"));
    assert_eq!(parse_args(&words(&[""])), unknown(""));
    assert_eq!(parse_args(&words(&["-n6"])), unknown("-n6"));
}

#[test]
fn what_comes_first_decides() {
    assert_eq!(parse_args(&words(&["--bogus", "-h"])), Invocation::UnknownOption("--bogus".to_string()));
    assert_eq!(parse_args(&words(&["-h", "-n", "0"])), Invocation::Help);
}

#[test]
fn options_are_read_in_turn() {
    let front = ["-n", "5", "-M"];
    let back = ["-n", "7"];
    let all: Vec<&str> = front.iter().chain(back.iter()).copied().collect();
    assert_eq!(parse_args(&words(&all)), run(7, false));
}

#[test]
fn counts_are_read_as_the_standard_library_reads_them() {
    let texts = [
        "1", "+1", "007", "42", "18446744073709551615", "18446744073709551616", "99999999999999999999999",
        "+", "++1", "-0", "", "1a", "a1", "+007", "\u{0661}", "1\u{0661}", "4294967295", "4294967296",
    ];
    for text in texts {
        let expected = text.parse::<usize>().ok().filter(|&n| n >= 1);
        assert_eq!(parse_count(text), expected);
    }
}

#[test]
fn arguments_are_read_one_by_one() {
    let settings = Args { max_tiles: 2, apply_on_move: true };
    let start = Reader::new();
    assert_eq!(start, Reader { settings, wants_count: false });
    assert_eq!(start.finish(), run(2, true));
    let counting = Reader { settings, wants_count: true };
    assert_eq!(start.read(&"-n".to_string()), Progress::More(counting));
    assert_eq!(counting.finish(), Invocation::BadCount);
    assert_eq!(counting.read(&"x".to_string()), Progress::Decided(Invocation::BadCount));
    let four = Reader { settings: Args { max_tiles: 4, apply_on_move: true }, wants_count: false };
    assert_eq!(counting.read(&"4".to_string()), Progress::More(four));
    let still = Reader { settings: Args { max_tiles: 4, apply_on_move: false }, wants_count: false };
    assert_eq!(four.read(&"-M".to_string()), Progress::More(still));
    assert_eq!(four.read(&"--no-move".to_string()), Progress::More(still));
    assert_eq!(still.finish(), run(4, false));
    assert_eq!(four.read(&"-h".to_string()), Progress::Decided(Invocation::Help));
    let unknown = Invocation::UnknownOption("4".to_string());
    assert_eq!(four.read(&"4".to_string()), Progress::Decided(unknown));
}

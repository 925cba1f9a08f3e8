use set_game::cli::{time_summary, format_duration, parse_args, parse_command, parse_selection, split_off_name, ArgsOutcome, Command};
use set_game::display::TermColor;

fn strings(v: &[&str]) -> Vec<String> {
    v.iter().map(|s| s.to_string()).collect()
}

#[test]
fn selection_of_three_distinct_cards() {
    assert_eq!(parse_selection(&["1", "5", "9"], 12), Ok([0, 4, 8]));
    assert_eq!(parse_selection(&["+12", "1", "2"], 12), Ok([11, 0, 1]));
}

#[test]
fn selection_errors() {
    assert_eq!(
        parse_selection(&["1", "x", "9"], 12).unwrap_err(),
        "Please enter 3 numbers, e.g. \"1 5 9\"."
    );
    assert_eq!(parse_selection(&["1", "2"], 12).unwrap_err(), "Please enter exactly 3 numbers.");
    assert_eq!(
        parse_selection(&["1", "13", "0"], 12).unwrap_err(),
        "13 is not a card on the board (pick 1-12)."
    );
    assert_eq!(
        parse_selection(&["-4", "1", "2"], 12).unwrap_err(),
        "-4 is not a card on the board (pick 1-12)."
    );
    assert_eq!(parse_selection(&["3", "1", "3"], 12).unwrap_err(), "Pick 3 different cards.");
}

#[test]
fn name_is_split_off_in_team_mode_only() {
    let tokens = ["1", "5", "9", "al"];
    let (rest, name) = split_off_name(&tokens, true);
    assert_eq!(rest, vec!["1", "5", "9"]);
    assert_eq!(name, Some("al"));
    let (rest, name) = split_off_name(&tokens, false);
    assert_eq!(rest, vec!["1", "5", "9", "al"]);
    assert_eq!(name, None);
    let (rest, name) = split_off_name(&["1", "5", "9"], true);
    assert_eq!(rest, vec!["1", "5", "9"]);
    assert_eq!(name, None);
}

#[test]
fn durations_as_minutes_and_seconds() {
    assert_eq!(format_duration(0), "00:00");
    assert_eq!(format_duration(75), "01:15");
    assert_eq!(format_duration(6000), "100:00");
}

#[test]
fn commands() {
    assert!(matches!(parse_command(" Quit ", false, 12), Command::Quit));
    assert!(matches!(parse_command("/FINISH", false, 12), Command::Quit));
    assert!(matches!(parse_command("   ", false, 12), Command::Nothing));
    assert!(matches!(parse_command("/Help", false, 12), Command::Help));
    assert!(matches!(parse_command("/count", false, 12), Command::Count));
    assert!(matches!(parse_command("/cheat", false, 12), Command::Cheat));
    assert!(matches!(parse_command("/addplayer", false, 12), Command::AddPlayerUsage));
    match parse_command("/ADDPLAYER  Zed Z ", false, 12) {
        Command::AddPlayer(name) => assert_eq!(name, "Zed Z"),
        _ => panic!("expected a registration"),
    }
    match parse_command("1 5  9 al", true, 12) {
        Command::Claim { selection, name } => {
            assert_eq!(selection, Ok([0, 4, 8]));
            assert_eq!(name, Some("al".to_string()));
        }
        _ => panic!("expected a claim"),
    }
    match parse_command("1 5 al", false, 12) {
        Command::Claim { selection, name } => {
            assert!(selection.is_err());
            assert_eq!(name, None);
        }
        _ => panic!("expected a claim"),
    }
}

#[test]
fn arguments() {
    match parse_args(&strings(&[])) {
        ArgsOutcome::Run(a) => {
            assert!(a.highlight);
            assert!(!a.static_mode);
            assert!(a.players.is_none());
            assert_eq!(a.palette.purple, TermColor::Magenta);
        }
        _ => panic!("expected settings"),
    }
    match parse_args(&strings(&["--static", "--players", "Ann", "Bo", "--highlight=false", "--colors", "blue,cyan,#000000"])) {
        ArgsOutcome::Run(a) => {
            assert!(!a.highlight);
            assert!(a.static_mode);
            assert_eq!(a.players, Some(strings(&["Ann", "Bo"])));
            assert_eq!(a.palette.red, TermColor::Blue);
            assert_eq!(a.palette.purple, TermColor::TrueColor { r: 0, g: 0, b: 0 });
        }
        _ => panic!("expected settings"),
    }
    match parse_args(&strings(&["--players"])) {
        ArgsOutcome::Run(a) => assert_eq!(a.players, Some(Vec::new())),
        _ => panic!("expected settings"),
    }
    assert!(matches!(parse_args(&strings(&["--bogus", "-h"])), ArgsOutcome::Fail(_)));
    assert!(matches!(parse_args(&strings(&["--static", "-h", "--bogus"])), ArgsOutcome::Help));
    match parse_args(&strings(&["--colors"])) {
        ArgsOutcome::Fail(m) => assert_eq!(m, "--colors requires a value, e.g. --colors red,green,purple"),
        _ => panic!("expected a failure"),
    }
    match parse_args(&strings(&["--highlight=yes"])) {
        ArgsOutcome::Fail(m) => assert_eq!(m, "--highlight expects true or false, got \"yes\""),
        _ => panic!("expected a failure"),
    }
    match parse_args(&strings(&["--nope"])) {
        ArgsOutcome::Fail(m) => assert_eq!(m, "Unknown argument: --nope"),
        _ => panic!("expected a failure"),
    }
}

#[test]
fn set_time_summary() {
    assert_eq!(time_summary(&[]), None);
    assert_eq!(time_summary(&[5, 2, 9]), Some((5, 2, 9)));
    assert_eq!(time_summary(&[3, 4]), Some((3, 3, 4)));
}

use vstd::prelude::*;

use crate::display::{parse_palette, spec_palette, Palette, TermColor};
use crate::text::{
    has_prefix, starts_with, text_eq,
    ascii_case_eq, eq_ignore_ascii_case, split_whitespace, trim, trimmed, words,
    texts,
    char_to_string, chars_of, concat3, decimal, decimal_string, is_digit, is_white_space,
};

verus! {

/// The value of a non-empty run of decimal digits.
pub open spec fn digits_value(d: Seq<char>) -> int
    decreases d.len(),
{
    if d.len() == 0 {
        0
    } else {
        digits_value(d.drop_last()) * 10 + (d.last() as int - '0' as int)
    }
}

/// What `str::parse::<i64>` accepts: an optional `+` or `-`, then one or
/// more ASCII digits, with a value in the range of `i64`.
pub open spec fn parsed_i64(s: Seq<char>) -> Option<i64> {
    let neg = s.len() > 0 && s[0] == '-';
    let d = if s.len() > 0 && (s[0] == '-' || s[0] == '+') {
        s.drop_first()
    } else {
        s
    };
    let v = if neg {
        -digits_value(d)
    } else {
        digits_value(d)
    };
    if d.len() > 0 && (forall|i: int| 0 <= i < d.len() ==> #[trigger] is_digit(d[i])) && i64::MIN
        <= v <= i64::MAX {
        Some(v as i64)
    } else {
        None
    }
}

/// `str::parse::<i64>`, which the standard library documents as an
/// optional sign followed by digits, anything else (white space, `_`, an
/// empty text, a value out of range) being an error.
#[verifier::external_body]
fn parse_i64(s: &str) -> (r: Option<i64>)
    ensures
        r == parsed_i64(s@),
{
    s.parse::<i64>().ok()
}

/// A signed number in decimal, with `-` for negative values.
pub open spec fn signed_decimal(n: int) -> Seq<char> {
    if n < 0 {
        seq!['-'] + decimal((-n) as nat)
    } else {
        decimal(n as nat)
    }
}

fn signed_decimal_string(n: i64) -> (s: String)
    ensures
        s@ == signed_decimal(n as int),
{
    if n < 0 {
        let m: u64 = if n == i64::MIN {
            9223372036854775808u64
        } else {
            (-n) as u64
        };
        let mut minus = char_to_string('-');
        let digits = decimal_string(m);
        minus.append(digits.as_str());
        minus
    } else {
        decimal_string(n as u64)
    }
}

/// The message for tokens that are not all numbers.
pub open spec fn not_numbers_message() -> Seq<char> {
    "Please enter 3 numbers, e.g. \"1 5 9\"."@
}

/// The message for a count of numbers other than three.
pub open spec fn not_three_message() -> Seq<char> {
    "Please enter exactly 3 numbers."@
}

/// The message for a number that names no slot.
pub open spec fn off_board_message(n: int, board_len: int) -> Seq<char> {
    signed_decimal(n) + " is not a card on the board (pick 1-"@ + decimal(board_len as nat)
        + ")."@
}

/// The message for a repeated slot.
pub open spec fn repeated_message() -> Seq<char> {
    "Pick 3 different cards."@
}

/// The number is not a slot of a board of the given size (slots are
/// numbered from 1).
pub open spec fn off_board(n: int, board_len: int) -> bool {
    n < 1 || n > board_len
}

/// What a claim's number tokens give: three 0-based slots, or the message
/// for the first problem found.
pub open spec fn selection(tokens: Seq<Seq<char>>, board_len: int) -> Result<Seq<usize>, Seq<char>> {
    if exists|t: int| 0 <= t < tokens.len() && #[trigger] parsed_i64(tokens[t]) is None {
        Err(not_numbers_message())
    } else if tokens.len() != 3 {
        Err(not_three_message())
    } else {
        let n0 = parsed_i64(tokens[0])->0 as int;
        let n1 = parsed_i64(tokens[1])->0 as int;
        let n2 = parsed_i64(tokens[2])->0 as int;
        if off_board(n0, board_len) {
            Err(off_board_message(n0, board_len))
        } else if off_board(n1, board_len) {
            Err(off_board_message(n1, board_len))
        } else if off_board(n2, board_len) {
            Err(off_board_message(n2, board_len))
        } else if n0 == n1 || n1 == n2 || n0 == n2 {
            Err(repeated_message())
        } else {
            Ok(seq![(n0 - 1) as usize, (n1 - 1) as usize, (n2 - 1) as usize])
        }
    }
}

/// An executable selection agrees with a specified one.
pub open spec fn same_selection(r: Result<[usize; 3], String>, s: Result<Seq<usize>, Seq<char>>) -> bool {
    match (r, s) {
        (Ok(a), Ok(b)) => a@ == b,
        (Err(m), Err(t)) => m@ == t,
        _ => false,
    }
}

fn off_board_error(n: i64, board_len: usize) -> (m: String)
    ensures
        m@ == off_board_message(n as int, board_len as int),
{
    let head = signed_decimal_string(n);
    let len = decimal_string(board_len as u64);
    let mut m = concat3(head.as_str(), " is not a card on the board (pick 1-", len.as_str());
    m.append(").");
    m
}

/// Reads a claim: three card numbers as shown on the board (1-based),
/// turned into distinct 0-based slots.
pub fn parse_selection(tokens: &[&str], board_len: usize) -> (r: Result<[usize; 3], String>)
    ensures
        same_selection(r, selection(texts(tokens@), board_len as int)),
{
    let ghost tv = texts(tokens@);
    let mut nums: Vec<i64> = Vec::new();
    let mut t: usize = 0;
    while t < tokens.len()
        invariant
            tv == texts(tokens@),
            t <= tokens@.len(),
            nums@.len() == t,
            forall|x: int| 0 <= x < t ==> parsed_i64(#[trigger] tv[x]) == Some(nums@[x]),
        decreases tokens@.len() - t,
    {
        match parse_i64(tokens[t]) {
            Some(v) => nums.push(v),
            None => {
                assert(parsed_i64(tv[t as int]) is None);
                return Err(String::from_str("Please enter 3 numbers, e.g. \"1 5 9\"."));
            },
        }
        t = t + 1;
    }
    if nums.len() != 3 {
        return Err(String::from_str("Please enter exactly 3 numbers."));
    }
    let mut idxs: [usize; 3] = [0, 0, 0];
    let mut i: usize = 0;
    while i < 3
        invariant
            nums@.len() == 3,
            tv == texts(tokens@),
            tv.len() == 3,
            forall|x: int| 0 <= x < 3 ==> parsed_i64(#[trigger] tv[x]) == Some(nums@[x]),
            i <= 3,
            board_len as int <= usize::MAX,
            forall|x: int| 0 <= x < i ==> !off_board(#[trigger] nums@[x] as int, board_len as int),
            forall|x: int| 0 <= x < i ==> #[trigger] idxs@[x] == nums@[x] - 1,
        decreases 3 - i,
    {
        let n = nums[i];
        if n < 1 || (n as i128) > (board_len as i128) {
            return Err(off_board_error(n, board_len));
        }
        idxs.set(i, (n - 1) as usize);
        i = i + 1;
    }
    if idxs[0] == idxs[1] || idxs[1] == idxs[2] || idxs[0] == idxs[2] {
        return Err(String::from_str("Pick 3 different cards."));
    }
    assert(idxs@ =~= seq![idxs@[0], idxs@[1], idxs@[2]]);
    Ok(idxs)
}

/// What splitting a trailing player name off a claim's tokens gives: in
/// team mode, a last token that is not a number is the name.
pub open spec fn name_split(tokens: Seq<Seq<char>>, team_mode: bool) -> (Seq<Seq<char>>, Option<Seq<char>>) {
    if team_mode && tokens.len() > 0 && parsed_i64(tokens.last()) is None {
        (tokens.drop_last(), Some(tokens.last()))
    } else {
        (tokens, None)
    }
}

/// Splits off a trailing player-name token from a claim's whitespace tokens.
/// Only applies in team mode, and only when the last token isn't itself a
/// number (so "1 5 9" still parses as three plain indices).
pub fn split_off_name<'a>(tokens: &[&'a str], team_mode: bool) -> (r: (Vec<&'a str>, Option<&'a str>))
    ensures
        texts(r.0@) == name_split(texts(tokens@), team_mode).0,
        r.1 matches Some(x) ==> name_split(texts(tokens@), team_mode).1 == Some(x@),
        r.1 is None ==> name_split(texts(tokens@), team_mode).1 is None,
{
    let n = tokens.len();
    let split = team_mode && n > 0 && parse_i64(tokens[n - 1]).is_none();
    let keep = if split { n - 1 } else { n };
    let mut rest: Vec<&'a str> = Vec::new();
    let mut t: usize = 0;
    while t < keep
        invariant
            keep <= n,
            n == tokens@.len(),
            t <= keep,
            texts(rest@) == texts(tokens@).take(t as int),
        decreases keep - t,
    {
        let ghost before = rest@;
        rest.push(tokens[t]);
        assert(texts(rest@) =~= texts(before).push(tokens@[t as int]@));
        t = t + 1;
        assert(texts(rest@) =~= texts(tokens@).take(t as int));
    }
    assert(texts(rest@) =~= texts(tokens@).take(keep as int));
    if split {
        assert(texts(tokens@).take(keep as int) =~= texts(tokens@).drop_last());
        (rest, Some(tokens[n - 1]))
    } else {
        assert(texts(tokens@).take(keep as int) =~= texts(tokens@));
        (rest, None)
    }
}

/// A number of at least two digits, padded with a leading zero.
pub open spec fn two_digits(n: nat) -> Seq<char> {
    if n < 10 {
        seq!['0'] + decimal(n)
    } else {
        decimal(n)
    }
}

/// A duration as `MM:SS`: whole minutes (at least two digits), a colon,
/// then the seconds within the minute.
pub open spec fn clock_text(secs: nat) -> Seq<char> {
    two_digits(secs / 60) + seq![':'] + two_digits(secs % 60)
}

fn two_digit_string(n: u64) -> (s: String)
    ensures
        s@ == two_digits(n as nat),
{
    let d = decimal_string(n);
    if n < 10 {
        let mut zero = char_to_string('0');
        zero.append(d.as_str());
        zero
    } else {
        d
    }
}

/// Formats a duration given in whole seconds as `MM:SS`.
pub fn format_duration(secs: u64) -> (s: String)
    ensures
        s@ == clock_text(secs as nat),
{
    let m = two_digit_string(secs / 60);
    let colon = char_to_string(':');
    let sec = two_digit_string(secs % 60);
    concat3(m.as_str(), colon.as_str(), sec.as_str())
}

/// How many characters a text has before its first white space.
pub open spec fn head_len(s: Seq<char>) -> int
    decreases s.len(),
{
    if s.len() == 0 || is_white_space(s[0]) {
        0
    } else {
        1 + head_len(s.drop_first())
    }
}

proof fn lemma_head_len(s: Seq<char>)
    ensures
        0 <= head_len(s) <= s.len(),
        forall|t: int| 0 <= t < head_len(s) ==> !is_white_space(#[trigger] s[t]),
        head_len(s) < s.len() ==> is_white_space(s[head_len(s)]),
    decreases s.len(),
{
    if s.len() > 0 && !is_white_space(s[0]) {
        lemma_head_len(s.drop_first());
        assert forall|t: int| 0 <= t < head_len(s) implies !is_white_space(#[trigger] s[t]) by {
            if t > 0 {
                assert(s[t] == s.drop_first()[t - 1]);
            }
        }
    }
}

/// The first word of a command and what follows the white space after
/// it, as `splitn(2, char::is_whitespace)` gives them.
pub open spec fn command_parts(s: Seq<char>) -> (Seq<char>, Seq<char>) {
    let k = head_len(s);
    if k < s.len() {
        (s.take(k), s.skip(k + 1))
    } else {
        (s, Seq::empty())
    }
}

/// What a line typed during the game asks for.
pub enum Command {
    /// End the game.
    Quit,
    /// An empty line: nothing to do.
    Nothing,
    /// List the commands.
    Help,
    /// Tell how many Sets lie on the board.
    Count,
    /// Show every Set on the board.
    Cheat,
    /// `/addplayer` without a name.
    AddPlayerUsage,
    /// Register a player with this name.
    AddPlayer(String),
    /// Claim three slots, perhaps for a named player.
    Claim { selection: Result<[usize; 3], String>, name: Option<String> },
}

/// The line asks to end the game.
pub open spec fn is_quit(t: Seq<char>) -> bool {
    ascii_case_eq(t, "q"@) || ascii_case_eq(t, "quit"@) || ascii_case_eq(t, "/finish"@)
}

/// Reads a line typed during the game: the commands are matched up to
/// ASCII case after trimming; anything else is a claim of card numbers,
/// in team mode perhaps followed by a player name.
pub fn parse_command(input: &str, team_mode: bool, board_len: usize) -> (c: Command)
    ensures
        ({
            let t = trimmed(input@);
            let (head, rest) = command_parts(t);
            if is_quit(t) {
                c is Quit
            } else if t.len() == 0 {
                c is Nothing
            } else if ascii_case_eq(t, "/help"@) {
                c is Help
            } else if ascii_case_eq(t, "/count"@) {
                c is Count
            } else if ascii_case_eq(t, "/cheat"@) {
                c is Cheat
            } else if ascii_case_eq(head, "/addplayer"@) {
                if trimmed(rest).len() == 0 {
                    c is AddPlayerUsage
                } else {
                    c matches Command::AddPlayer(name) && name@ == trimmed(rest)
                }
            } else {
                let (numbers, name) = name_split(words(t), team_mode);
                &&& c matches Command::Claim { selection: sel, name: n }
                &&& same_selection(sel, selection(numbers, board_len as int))
                &&& (n matches Some(x) ==> name == Some(x@))
                &&& (n is None ==> name is None)
            }
        }),
{
    let t = trim(input);
    if eq_ignore_ascii_case(t, "q") || eq_ignore_ascii_case(t, "quit") || eq_ignore_ascii_case(
        t,
        "/finish",
    ) {
        return Command::Quit;
    }
    if t.unicode_len() == 0 {
        return Command::Nothing;
    }
    if eq_ignore_ascii_case(t, "/help") {
        return Command::Help;
    }
    if eq_ignore_ascii_case(t, "/count") {
        return Command::Count;
    }
    if eq_ignore_ascii_case(t, "/cheat") {
        return Command::Cheat;
    }
    let cs = chars_of(t);
    let n = cs.len();
    let mut k: usize = 0;
    proof {
        lemma_head_len(t@);
    }
    while k < n && !crate::text::char_is_whitespace(cs[k])
        invariant
            cs@ == t@,
            n == t@.len(),
            k <= head_len(t@),
            forall|x: int| 0 <= x < head_len(t@) ==> !is_white_space(#[trigger] t@[x]),
            head_len(t@) < t@.len() ==> is_white_space(t@[head_len(t@)]),
            head_len(t@) <= t@.len(),
        decreases n - k,
    {
        k = k + 1;
    }
    let head = t.substring_char(0, k);
    let rest = if k < n { t.substring_char(k + 1, n) } else { t.substring_char(n, n) };
    assert(head@ =~= command_parts(t@).0);
    assert(rest@ =~= command_parts(t@).1);
    if eq_ignore_ascii_case(head, "/addplayer") {
        let name = trim(rest);
        if name.unicode_len() == 0 {
            return Command::AddPlayerUsage;
        }
        return Command::AddPlayer(String::from_str(name));
    }
    let tokens = split_whitespace(t);
    let (numbers, name) = split_off_name(tokens.as_slice(), team_mode);
    let selection = parse_selection(numbers.as_slice(), board_len);
    let name = match name {
        Some(x) => Some(String::from_str(x)),
        None => None,
    };
    Command::Claim { selection, name }
}

/// The command-line settings.
pub struct Args {
    pub palette: Palette,
    /// `Some(names)` means team mode is active; `names` may be empty if
    /// `--players` was given with no names (a name is then prompted for).
    pub players: Option<Vec<String>>,
    pub highlight: bool,
    pub static_mode: bool,
}

/// What the command line asks for.
pub enum ArgsOutcome {
    /// Print the usage text and stop.
    Help,
    /// Stop with this message.
    Fail(String),
    /// Play with these settings.
    Run(Args),
}

/// The settings as plain values.
pub struct ArgsView {
    pub palette: Palette,
    pub players: Option<Seq<Seq<char>>>,
    pub highlight: bool,
    pub static_mode: bool,
}

/// What reading the command line gives, as plain values.
pub enum ArgsVerdict {
    Help,
    Fail(Seq<char>),
    Run(ArgsView),
}

/// The settings before any argument is read.
pub open spec fn default_args() -> ArgsView {
    ArgsView {
        palette: Palette { red: TermColor::Red, green: TermColor::Green, purple: TermColor::Magenta },
        players: None,
        highlight: true,
        static_mode: false,
    }
}

/// Where the names after `--players` end: at the next argument that starts
/// with `--`, or at the end.
pub open spec fn names_end(raw: Seq<Seq<char>>, j: int) -> int
    decreases raw.len() - j,
{
    if 0 <= j < raw.len() && !has_prefix(raw[j], "--"@) {
        names_end(raw, j + 1)
    } else {
        j
    }
}

/// The names after `--players` run up to the next argument that starts
/// with `--`.
pub proof fn lemma_names_end(raw: Seq<Seq<char>>, j: int)
    requires
        0 <= j,
    ensures
        j <= names_end(raw, j),
        j <= raw.len() ==> names_end(raw, j) <= raw.len(),
        forall|t: int| j <= t < names_end(raw, j) ==> !has_prefix(#[trigger] raw[t], "--"@),
        names_end(raw, j) < raw.len() ==> has_prefix(raw[names_end(raw, j)], "--"@),
    decreases raw.len() - j,
{
    if 0 <= j < raw.len() && !has_prefix(raw[j], "--"@) {
        lemma_names_end(raw, j + 1);
    }
}

/// The message for `--colors` without a value.
pub open spec fn colors_missing_message() -> Seq<char> {
    "--colors requires a value, e.g. --colors red,green,purple"@
}

/// The message for a `--highlight=` value other than `true` or `false`.
pub open spec fn highlight_message(val: Seq<char>) -> Seq<char> {
    "--highlight expects true or false, got \""@ + val + "\""@
}

/// The message for an argument nobody knows.
pub open spec fn unknown_argument_message(arg: Seq<char>) -> Seq<char> {
    "Unknown argument: "@ + arg
}

/// Reads the arguments from position `i` on, with the settings `st` read
/// so far. `-h` or `--help` stops at once; `--static` turns on static
/// mode; `--colors` takes the next argument as a palette; `--players` takes
/// the following arguments up to one that starts with `--` as names;
/// `--highlight=true` or `--highlight=false` sets highlighting; anything
/// else is an error.
pub open spec fn args_from(raw: Seq<Seq<char>>, i: int, st: ArgsView) -> ArgsVerdict
    decreases raw.len() - i,
{
    if i < 0 || i >= raw.len() {
        ArgsVerdict::Run(st)
    } else {
        let a = raw[i];
        if a == "-h"@ || a == "--help"@ {
            ArgsVerdict::Help
        } else if a == "--static"@ {
            args_from(raw, i + 1, ArgsView { static_mode: true, ..st })
        } else if a == "--colors"@ {
            if i + 1 >= raw.len() {
                ArgsVerdict::Fail(colors_missing_message())
            } else {
                match spec_palette(raw[i + 1]) {
                    Err(m) => ArgsVerdict::Fail(m),
                    Ok(p) => args_from(raw, i + 2, ArgsView { palette: p, ..st }),
                }
            }
        } else if a == "--players"@ {
            proof {
                lemma_names_end(raw, i + 1);
            }
            let e = names_end(raw, i + 1);
            args_from(raw, e, ArgsView { players: Some(raw.subrange(i + 1, e)), ..st })
        } else if has_prefix(a, "--highlight="@) {
            let v = a.skip("--highlight="@.len() as int);
            if v == "true"@ {
                args_from(raw, i + 1, ArgsView { highlight: true, ..st })
            } else if v == "false"@ {
                args_from(raw, i + 1, ArgsView { highlight: false, ..st })
            } else {
                ArgsVerdict::Fail(highlight_message(v))
            }
        } else {
            ArgsVerdict::Fail(unknown_argument_message(a))
        }
    }
}

/// The texts of a sequence of strings.
pub open spec fn string_texts(s: Seq<String>) -> Seq<Seq<char>> {
    s.map_values(|x: String| x@)
}

/// The settings as plain values.
pub open spec fn args_view(a: Args) -> ArgsView {
    ArgsView {
        palette: a.palette,
        players: match a.players {
            Some(v) => Some(string_texts(v@)),
            None => None,
        },
        highlight: a.highlight,
        static_mode: a.static_mode,
    }
}

/// An executable outcome agrees with a specified one.
pub open spec fn same_args(r: ArgsOutcome, s: ArgsVerdict) -> bool {
    match (r, s) {
        (ArgsOutcome::Help, ArgsVerdict::Help) => true,
        (ArgsOutcome::Fail(m), ArgsVerdict::Fail(t)) => m@ == t,
        (ArgsOutcome::Run(a), ArgsVerdict::Run(v)) => args_view(a) == v,
        _ => false,
    }
}

/// Reads the command-line arguments (the program name left out).
pub fn parse_args(raw: &Vec<String>) -> (r: ArgsOutcome)
    ensures
        same_args(r, args_from(string_texts(raw@), 0, default_args())),
{
    let ghost rv = string_texts(raw@);
    let mut palette = Palette { red: TermColor::Red, green: TermColor::Green, purple: TermColor::Magenta };
    let mut players: Option<Vec<String>> = None;
    let mut highlight = true;
    let mut static_mode = false;
    let n = raw.len();
    let mut i: usize = 0;
    while i < n
        invariant
            n == raw@.len(),
            rv == string_texts(raw@),
            i <= n,
            args_from(rv, 0, default_args()) == args_from(
                rv,
                i as int,
                ArgsView {
                    palette,
                    players: match players {
                        Some(v) => Some(string_texts(v@)),
                        None => None,
                    },
                    highlight,
                    static_mode,
                },
            ),
        decreases n - i,
    {
        let a = raw[i].as_str();
        assert(a@ == rv[i as int]);
        if text_eq(a, "-h") || text_eq(a, "--help") {
            return ArgsOutcome::Help;
        } else if text_eq(a, "--static") {
            static_mode = true;
            i = i + 1;
        } else if text_eq(a, "--colors") {
            if i + 1 >= n {
                return ArgsOutcome::Fail(
                    String::from_str("--colors requires a value, e.g. --colors red,green,purple"),
                );
            }
            assert(raw@[i + 1]@ == rv[i + 1]);
            match parse_palette(raw[i + 1].as_str()) {
                Ok(p) => {
                    palette = p;
                },
                Err(m) => {
                    return ArgsOutcome::Fail(m);
                },
            }
            i = i + 2;
        } else if text_eq(a, "--players") {
            proof {
                lemma_names_end(rv, i + 1);
            }
            let mut names: Vec<String> = Vec::new();
            let mut j = i + 1;
            while j < n && !starts_with(raw[j].as_str(), "--")
                invariant
                    n == raw@.len(),
                    rv == string_texts(raw@),
                    i + 1 <= j <= names_end(rv, i + 1),
                    names_end(rv, i + 1) <= n,
                    forall|t: int| i + 1 <= t < names_end(rv, i + 1) ==> !has_prefix(#[trigger] rv[t], "--"@),
                    names_end(rv, i + 1) < rv.len() ==> has_prefix(rv[names_end(rv, i + 1)], "--"@),
                    string_texts(names@) == rv.subrange(i + 1, j as int),
                decreases n - j,
            {
                assert(raw@[j as int]@ == rv[j as int]);
                let ghost before = names@;
                names.push(String::from_str(raw[j].as_str()));
                assert(string_texts(names@) =~= string_texts(before).push(rv[j as int]));
                assert(rv.subrange(i + 1, j + 1) =~= rv.subrange(i + 1, j as int).push(rv[j as int]));
                j = j + 1;
            }
            proof {
                if j < n {
                    assert(raw@[j as int]@ == rv[j as int]);
                }
            }
            players = Some(names);
            i = j;
        } else if starts_with(a, "--highlight=") {
            let skip = "--highlight=".unicode_len();
            let val = a.substring_char(skip, a.unicode_len());
            assert(val@ =~= a@.skip("--highlight="@.len() as int));
            if text_eq(val, "true") {
                highlight = true;
            } else if text_eq(val, "false") {
                highlight = false;
            } else {
                return ArgsOutcome::Fail(concat3("--highlight expects true or false, got \"", val, "\""));
            }
            i = i + 1;
        } else {
            let mut m = String::from_str("Unknown argument: ");
            m.append(a);
            return ArgsOutcome::Fail(m);
        }
    }
    ArgsOutcome::Run(Args { palette, players, highlight, static_mode })
}

/// The sum of the given times.
pub open spec fn total(ts: Seq<u128>) -> int
    decreases ts.len(),
{
    if ts.len() == 0 {
        0
    } else {
        total(ts.drop_last()) + ts.last()
    }
}

proof fn lemma_total_grows(ts: Seq<u128>, k: int)
    requires
        0 <= k <= ts.len(),
    ensures
        total(ts.take(k)) <= total(ts),
        total(ts.take(k)) >= 0,
    decreases ts.len() - k,
{
    if k < ts.len() {
        lemma_total_grows(ts, k + 1);
        assert(ts.take(k + 1).drop_last() =~= ts.take(k));
    } else {
        assert(ts.take(k) =~= ts);
    }
    lemma_total_nonneg(ts.take(k));
}

proof fn lemma_total_nonneg(ts: Seq<u128>)
    ensures
        total(ts) >= 0,
    decreases ts.len(),
{
    if ts.len() > 0 {
        lemma_total_nonneg(ts.drop_last());
    }
}

/// The average (rounded down), shortest and longest of the times it took
/// to find each Set, or `None` when none was found.
pub fn time_summary(times: &[u128]) -> (r: Option<(u128, u128, u128)>)
    requires
        total(times@) <= u128::MAX,
    ensures
        r is None <==> times@.len() == 0,
        r matches Some((avg, fastest, slowest)) ==> {
            &&& avg == total(times@) / times@.len() as int
            &&& times@.contains(fastest)
            &&& times@.contains(slowest)
            &&& forall|i: int| 0 <= i < times@.len() ==> fastest <= #[trigger] times@[i] <= slowest
        },
{
    let n = times.len();
    if n == 0 {
        return None;
    }
    let mut sum: u128 = 0;
    let mut lo = times[0];
    let mut hi = times[0];
    let mut i: usize = 0;
    while i < n
        invariant
            n == times@.len(),
            n > 0,
            i <= n,
            total(times@) <= u128::MAX,
            sum == total(times@.take(i as int)),
            times@.contains(lo),
            times@.contains(hi),
            forall|t: int| 0 <= t < i ==> lo <= #[trigger] times@[t] <= hi,
            i == 0 ==> lo == times@[0] && hi == times@[0],
        decreases n - i,
    {
        proof {
            lemma_total_grows(times@, i + 1);
            assert(times@.take(i + 1).drop_last() =~= times@.take(i as int));
        }
        sum = sum + times[i];
        if times[i] < lo {
            lo = times[i];
        }
        if times[i] > hi {
            hi = times[i];
        }
        i = i + 1;
    }
    assert(times@.take(n as int) =~= times@);
    Some((sum / (n as u128), lo, hi))
}

} // verus!

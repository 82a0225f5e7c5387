//! Reading the commands of the protocol.
use vstd::prelude::*;
use crate::game::text::{chars_of, number_upto, parse_decimal, parts_view, split, split_at,
    text_of};
use crate::game::notation::{same_text, texts_view};
use crate::uci::patterns::{find_groups, groups_view, names_view, pattern_groups};
use crate::uci::Uci;

verus! {

/// The position that a `position` command names: the start of the game, or
/// the text of a position.
#[derive(Debug)]
pub enum UciPosition {
    Startpos,
    Fen(String),
}

/// One setting of a `go` command, with its number.
#[derive(Debug)]
pub enum GoOption {
    WTime(u64),
    BTime(u64),
    WInc(u64),
    BInc(u64),
    MovesToGo(u64),
    MoveTime(u64),
}

/// A command of the protocol.
#[derive(Debug)]
pub enum UciCommand {
    Uci(),
    Position { position: UciPosition, moves: Vec<String> },
    Quit(),
    Stop(),
    UciNewGame(),
    IsReady(),
    Go { options: Vec<GoOption> },
    Unknown(String),
}

/// A command as a mathematical value.
pub enum CommandView {
    Uci,
    Position { fen: Option<Seq<char>>, moves: Seq<Seq<char>> },
    Quit,
    Stop,
    UciNewGame,
    IsReady,
    Go { options: Seq<GoOption> },
    Unknown(Seq<char>),
}

impl View for UciCommand {
    type V = CommandView;

    open spec fn view(&self) -> CommandView {
        match self {
            UciCommand::Uci() => CommandView::Uci,
            UciCommand::Position { position, moves } => CommandView::Position {
                fen: match position {
                    UciPosition::Startpos => None,
                    UciPosition::Fen(fen) => Some(fen@),
                },
                moves: texts_view(moves@),
            },
            UciCommand::Quit() => CommandView::Quit,
            UciCommand::Stop() => CommandView::Stop,
            UciCommand::UciNewGame() => CommandView::UciNewGame,
            UciCommand::IsReady() => CommandView::IsReady,
            UciCommand::Go { options } => CommandView::Go { options: options@ },
            UciCommand::Unknown(text) => CommandView::Unknown(text@),
        }
    }
}

/// The pattern of a `position startpos` command.
pub open spec fn startpos_pattern() -> Seq<char> {
    r"position startpos(?: moves (?<moves>.*))?"@
}

/// The pattern of a `position fen` command.
pub open spec fn fen_pattern() -> Seq<char> {
    r"position fen (?<fen>.*?)(?=\smoves|$)(?: moves (?<moves>.*))?"@
}

/// The pattern of a `go` command.
pub open spec fn go_pattern() -> Seq<char> {
    r"^go(?: (?:(?:(?:wtime (?P<wtime>\d+))|(?:btime (?P<btime>\d+))|(?:winc (?P<winc>\d+))|(?:binc (?P<binc>\d+))|(?:movestogo (?P<movestogo>\d+))|(?:movetime (?P<movetime>\d+))) ?)*)?$"@
}

/// The moves that a group of moves lists: its parts between blanks; none
/// where the group took no part.
pub open spec fn moves_of_group(group: Option<Seq<char>>) -> Seq<Seq<char>> {
    match group {
        Some(moves) => split(moves, ' '),
        None => Seq::empty(),
    }
}

/// The option that the group with the number `at` stands for.
pub open spec fn go_option(at: int, value: u64) -> GoOption {
    if at == 0 {
        GoOption::WTime(value)
    } else if at == 1 {
        GoOption::BTime(value)
    } else if at == 2 {
        GoOption::WInc(value)
    } else if at == 3 {
        GoOption::BInc(value)
    } else if at == 4 {
        GoOption::MovesToGo(value)
    } else {
        GoOption::MoveTime(value)
    }
}

/// The options that the first `count` groups of a `go` command give: for
/// each group that took part and holds a number that fits, its option.
pub open spec fn go_options(groups: Seq<Option<Seq<char>>>, count: int) -> Seq<GoOption>
    decreases count,
{
    if count <= 0 {
        Seq::empty()
    } else {
        let before = go_options(groups, count - 1);
        match groups[count - 1] {
            Some(text) => match number_upto(text, u64::MAX as nat) {
                Some(value) => before.push(go_option(count - 1, value as u64)),
                None => before,
            },
            None => before,
        }
    }
}

/// The names of the groups of a `position startpos` command.
pub open spec fn startpos_names() -> Seq<Seq<char>> {
    seq!["moves"@]
}

/// The names of the groups of a `position fen` command.
pub open spec fn fen_names() -> Seq<Seq<char>> {
    seq!["fen"@, "moves"@]
}

/// The names of the groups of a `go` command.
pub open spec fn go_names() -> Seq<Seq<char>> {
    seq!["wtime"@, "btime"@, "winc"@, "binc"@, "movestogo"@, "movetime"@]
}

/// The command that a text stands for, given what the three patterns find
/// in it: one of the five plain commands where the text is one; else a
/// position from the start where the first pattern is found, a position
/// from a text where the second is, a `go` where the third is, each with
/// what its groups took; else an unknown command.
pub open spec fn command_from(
    cmd: Seq<char>,
    startpos: Option<Seq<Option<Seq<char>>>>,
    fen: Option<Seq<Option<Seq<char>>>>,
    go: Option<Seq<Option<Seq<char>>>>,
) -> CommandView {
    if cmd == "uci"@ {
        CommandView::Uci
    } else if cmd == "quit"@ {
        CommandView::Quit
    } else if cmd == "stop"@ {
        CommandView::Stop
    } else if cmd == "ucinewgame"@ {
        CommandView::UciNewGame
    } else if cmd == "isready"@ {
        CommandView::IsReady
    } else if startpos.is_some() {
        CommandView::Position { fen: None, moves: moves_of_group(startpos.unwrap()[0]) }
    } else if fen.is_some() {
        CommandView::Position {
            fen: Some(
                match fen.unwrap()[0] {
                    Some(text) => text,
                    None => Seq::empty(),
                },
            ),
            moves: moves_of_group(fen.unwrap()[1]),
        }
    } else if go.is_some() {
        CommandView::Go { options: go_options(go.unwrap(), 6) }
    } else {
        CommandView::Unknown(cmd)
    }
}

/// The command that a text stands for.
pub open spec fn spec_parse(cmd: Seq<char>) -> CommandView {
    command_from(
        cmd,
        pattern_groups(startpos_pattern(), startpos_names(), cmd),
        pattern_groups(fen_pattern(), fen_names(), cmd),
        pattern_groups(go_pattern(), go_names(), cmd),
    )
}

/// The moves that a group of moves lists.
pub fn find_moves(group: &Option<String>) -> (moves: Vec<String>)
    ensures
        texts_view(moves@) == moves_of_group(
            match group {
                Some(text) => Some(text@),
                None => None,
            },
        ),
{
    let mut moves: Vec<String> = Vec::new();
    match group {
        Some(text) => {
            let parts = split_at(&chars_of(text.as_str()), ' ');
            let mut at: usize = 0;
            proof {
                assert(parts_view(parts@).len() == parts@.len());
            }
            while at < parts.len()
                invariant
                    at <= parts@.len(),
                    moves@.len() == at,
                    parts_view(parts@) == split(text@, ' '),
                    forall|i: int| 0 <= i < at ==> moves@[i]@ == parts@[i]@,
                decreases parts@.len() - at,
            {
                moves.push(text_of(&parts[at]));
                at = at + 1;
            }
            proof {
                assert(texts_view(moves@) =~= parts_view(parts@));
            }
        },
        None => {
            proof {
                assert(texts_view(moves@) =~= Seq::<Seq<char>>::empty());
            }
        },
    }
    moves
}

/// Adds the option of the group with the number `at`, if the group took
/// part and holds a number that fits.
pub fn parse_and_push(groups: &Vec<Option<String>>, at: usize, options: &mut Vec<GoOption>)
    requires
        at < 6,
        at < groups@.len(),
        groups_view(Some(*groups)) matches Some(texts) && old(options)@ == go_options(
            texts,
            at as int,
        ),
    ensures
        groups_view(Some(*groups)) matches Some(texts) && final(options)@ == go_options(
            texts,
            at + 1,
        ),
{
    match &groups[at] {
        Some(text) => {
            match parse_decimal(&chars_of(text.as_str()), u64::MAX) {
                Some(value) => {
                    let option = if at == 0 {
                        GoOption::WTime(value)
                    } else if at == 1 {
                        GoOption::BTime(value)
                    } else if at == 2 {
                        GoOption::WInc(value)
                    } else if at == 3 {
                        GoOption::BInc(value)
                    } else if at == 4 {
                        GoOption::MovesToGo(value)
                    } else {
                        GoOption::MoveTime(value)
                    };
                    options.push(option);
                },
                None => {},
            }
        },
        None => {},
    }
}

/// The text itself.
fn owned(text: &str) -> (r: String)
    ensures
        r@ == text@,
{
    text_of(&chars_of(text))
}

/// The command that a text stands for, given what the three patterns find
/// in it.
pub fn command_of(
    cmd: &str,
    startpos: Option<Vec<Option<String>>>,
    fen: Option<Vec<Option<String>>>,
    go: Option<Vec<Option<String>>>,
) -> (r: UciCommand)
    requires
        startpos matches Some(groups) ==> groups@.len() == 1,
        fen matches Some(groups) ==> groups@.len() == 2,
        go matches Some(groups) ==> groups@.len() == 6,
    ensures
        r@ == command_from(cmd@, groups_view(startpos), groups_view(fen), groups_view(go)),
{
    if same_text(cmd, "uci") {
        return UciCommand::Uci();
    }
    if same_text(cmd, "quit") {
        return UciCommand::Quit();
    }
    if same_text(cmd, "stop") {
        return UciCommand::Stop();
    }
    if same_text(cmd, "ucinewgame") {
        return UciCommand::UciNewGame();
    }
    if same_text(cmd, "isready") {
        return UciCommand::IsReady();
    }
    if let Some(groups) = startpos {
        return UciCommand::Position { position: UciPosition::Startpos, moves: find_moves(&groups[0]) };
    }
    if let Some(groups) = fen {
        let fen = match &groups[0] {
            Some(text) => owned(text.as_str()),
            None => String::new(),
        };
        return UciCommand::Position { position: UciPosition::Fen(fen), moves: find_moves(&groups[1]) };
    }
    if let Some(groups) = go {
        let mut options: Vec<GoOption> = Vec::new();
        let mut at: usize = 0;
        while at < 6
            invariant
                at <= 6,
                groups@.len() == 6,
                groups_view(Some(groups)) matches Some(texts) && options@ == go_options(
                    texts,
                    at as int,
                ),
            decreases 6 - at,
        {
            parse_and_push(&groups, at, &mut options);
            at = at + 1;
        }
        return UciCommand::Go { options };
    }
    UciCommand::Unknown(owned(cmd))
}

/// The names as texts of their own.
fn names_of(names: &Vec<&str>) -> (r: Vec<String>)
    ensures
        r@.len() == names@.len(),
        forall|i: int| 0 <= i < names@.len() ==> r@[i]@ == names@[i]@,
{
    let mut out: Vec<String> = Vec::new();
    let mut at: usize = 0;
    while at < names.len()
        invariant
            at <= names@.len(),
            out@.len() == at,
            forall|i: int| 0 <= i < at ==> out@[i]@ == names@[i]@,
        decreases names@.len() - at,
    {
        out.push(owned(names[at]));
        at = at + 1;
    }
    out
}

impl Uci {
    /// The command that a text stands for.
    pub fn parse(&self, cmd: &str) -> (r: UciCommand)
        ensures
            r@ == spec_parse(cmd@),
    {
        let mut names: Vec<&str> = Vec::new();
        names.push("moves");
        let first = names_of(&names);
        let startpos = find_groups(
            r"position startpos(?: moves (?<moves>.*))?",
            &first,
            cmd,
        );
        let mut names: Vec<&str> = Vec::new();
        names.push("fen");
        names.push("moves");
        let second = names_of(&names);
        let fen = find_groups(
            r"position fen (?<fen>.*?)(?=\smoves|$)(?: moves (?<moves>.*))?",
            &second,
            cmd,
        );
        let mut names: Vec<&str> = Vec::new();
        names.push("wtime");
        names.push("btime");
        names.push("winc");
        names.push("binc");
        names.push("movestogo");
        names.push("movetime");
        let third = names_of(&names);
        let go = find_groups(
            r"^go(?: (?:(?:(?:wtime (?P<wtime>\d+))|(?:btime (?P<btime>\d+))|(?:winc (?P<winc>\d+))|(?:binc (?P<binc>\d+))|(?:movestogo (?P<movestogo>\d+))|(?:movetime (?P<movetime>\d+))) ?)*)?$",
            &third,
            cmd,
        );
        proof {
            assert(names_view(first@) =~= startpos_names());
            assert(names_view(second@) =~= fen_names());
            assert(names_view(third@) =~= go_names());
        }
        command_of(cmd, startpos, fen, go)
    }
}

} // verus!

//! The turn logic of the terminal playground: what each input line does to the
//! game and what is printed in reply. Reading lines and writing text is left
//! to the program around it.
use vstd::prelude::*;
use vstd::string::StringExecFns;

use crate::board::{BoardGeom, EdgeId, Orientation, MAX_COLS, MAX_ROWS};
use crate::cli::{
    outcome_of, spec_command, command_outcome, Args, ArgsError, ArgsOutcome, Command, CommandError,
    CommandOutcome, Flag,
};
use crate::game::{Game, GameView, Player, Winner};
use crate::moves::MoveError;
use crate::render::{
    board_text, decimal, help_text, label_text, legal_text, push_decimal, render_board, render_help,
    render_legal, render_status, status_text,
};

verus! {

/// The name of a size flag.
pub open spec fn flag_text(f: Flag) -> Seq<char> {
    match f {
        Flag::Rows => "--rows"@,
        Flag::Cols => "--cols"@,
    }
}

/// The message for a rejected command line.
pub open spec fn args_error_text(o: ArgsOutcome) -> Seq<char> {
    match o {
        ArgsOutcome::MissingValue(f) => flag_text(f) + " needs a value"@,
        ArgsOutcome::NotAnInteger(f, raw) => flag_text(f) + " must be an integer, got '"@ + raw
            + "'"@,
        ArgsOutcome::UnknownFlag(a) => "unknown flag '"@ + a + "' (try --help)"@,
        ArgsOutcome::UnexpectedArgument(a) => "unexpected argument '"@ + a + "' (try --help)"@,
        ArgsOutcome::Parsed(_, _) => Seq::empty(),
    }
}

fn push_flag(out: &mut String, f: Flag)
    ensures
        final(out)@ == old(out)@ + flag_text(f),
{
    match f {
        Flag::Rows => out.append("--rows"),
        Flag::Cols => out.append("--cols"),
    }
}

/// The message for a rejected command line.
pub fn args_message(err: &ArgsError) -> (r: String)
    ensures
        r@ == args_error_text(outcome_of(Err::<Args, ArgsError>(*err))),
{
    let mut out = String::new();
    match err {
        ArgsError::MissingValue(f) => {
            push_flag(&mut out, *f);
            out.append(" needs a value");
        },
        ArgsError::NotAnInteger(f, raw) => {
            push_flag(&mut out, *f);
            out.append(" must be an integer, got '");
            out.append(raw.as_str());
            out.append("'");
        },
        ArgsError::UnknownFlag(a) => {
            out.append("unknown flag '");
            out.append(a.as_str());
            out.append("' (try --help)");
        },
        ArgsError::UnexpectedArgument(a) => {
            out.append("unexpected argument '");
            out.append(a.as_str());
            out.append("' (try --help)");
        },
    }
    proof {
        assert(out@ =~= args_error_text(outcome_of(Err::<Args, ArgsError>(*err))));
    }
    out
}

/// The message for a board size that is not supported.
pub open spec fn size_error_text(rows: nat, cols: nat) -> Seq<char> {
    "invalid board size "@ + decimal(rows) + "x"@ + decimal(cols) + " (supported: 1..="@ + decimal(
        MAX_ROWS as nat,
    ) + " by 1..="@ + decimal(MAX_COLS as nat) + ")"@
}

/// The message for a board size that is not supported.
pub fn size_message(rows: u8, cols: u8) -> (r: String)
    ensures
        r@ == size_error_text(rows as nat, cols as nat),
{
    let mut out = String::new();
    out.append("invalid board size ");
    push_decimal(&mut out, rows as u16);
    out.append("x");
    push_decimal(&mut out, cols as u16);
    out.append(" (supported: 1..=");
    push_decimal(&mut out, MAX_ROWS as u16);
    out.append(" by 1..=");
    push_decimal(&mut out, MAX_COLS as u16);
    out.append(")");
    proof {
        assert(out@ =~= size_error_text(rows as nat, cols as nat));
    }
    out
}

/// The greeting printed before the first move.
pub open spec fn banner_text(rows: nat, cols: nat) -> Seq<char> {
    "Dots and Boxes — hotseat CLI (dab-core playground)\nBoard: "@ + decimal(rows) + "×"@
        + decimal(cols) + " boxes\n"@
}

/// The greeting printed before the first move.
pub fn banner(geom: BoardGeom) -> (r: String)
    ensures
        r@ == banner_text(geom.nrows() as nat, geom.ncols() as nat),
{
    let mut out = String::new();
    out.append("Dots and Boxes — hotseat CLI (dab-core playground)\nBoard: ");
    push_decimal(&mut out, geom.rows() as u16);
    out.append("×");
    push_decimal(&mut out, geom.cols() as u16);
    out.append(" boxes\n");
    proof {
        assert(out@ =~= banner_text(geom.nrows() as nat, geom.ncols() as nat));
    }
    out
}

/// The orientation letter of an off-board coordinate.
pub open spec fn head_text(o: Orientation) -> Seq<char> {
    match o {
        Orientation::Horizontal => "H"@,
        Orientation::Vertical => "V"@,
    }
}

/// The message for a rejected input line.
pub open spec fn command_error_text(o: CommandOutcome) -> Seq<char> {
    match o {
        CommandOutcome::Empty => "empty input"@,
        CommandOutcome::ExpectedCoord => "expected: H <row> <col>  or  V <row> <col>"@,
        CommandOutcome::RowNotInteger => "row must be an integer"@,
        CommandOutcome::ColNotInteger => "col must be an integer"@,
        CommandOutcome::TooManyForCoord => "too many arguments"@,
        CommandOutcome::OffBoard(d, r, c) => head_text(d) + " "@ + decimal(r as nat) + " "@
            + decimal(c as nat) + " is out of range for this board"@,
        CommandOutcome::TooManyForId => "too many arguments (use: <id>  or  H <row> <col>)"@,
        CommandOutcome::Unknown(l) => "unknown command '"@ + l + "' (try 'help')"@,
        CommandOutcome::Command(_) => Seq::empty(),
    }
}

/// The message for a rejected input line.
pub fn command_message(err: &CommandError) -> (r: String)
    ensures
        r@ == command_error_text(command_outcome(Err::<Command, CommandError>(*err))),
{
    let mut out = String::new();
    match err {
        CommandError::Empty => out.append("empty input"),
        CommandError::ExpectedCoord => out.append("expected: H <row> <col>  or  V <row> <col>"),
        CommandError::RowNotInteger => out.append("row must be an integer"),
        CommandError::ColNotInteger => out.append("col must be an integer"),
        CommandError::TooManyForCoord => out.append("too many arguments"),
        CommandError::OffBoard(d, r, c) => {
            match d {
                Orientation::Horizontal => out.append("H"),
                Orientation::Vertical => out.append("V"),
            }
            out.append(" ");
            push_decimal(&mut out, *r as u16);
            out.append(" ");
            push_decimal(&mut out, *c as u16);
            out.append(" is out of range for this board");
        },
        CommandError::TooManyForId => out.append(
            "too many arguments (use: <id>  or  H <row> <col>)",
        ),
        CommandError::Unknown(l) => {
            out.append("unknown command '");
            out.append(l.as_str());
            out.append("' (try 'help')");
        },
    }
    proof {
        assert(out@ =~= command_error_text(command_outcome(Err::<Command, CommandError>(*err))));
    }
    out
}

/// The announcement of a legal move: who played which edge and, after a
/// capture, how many boxes it claimed.
pub open spec fn played_text(mover: Player, edge: int, claimed: nat) -> Seq<char> {
    label_text(mover) + " played #"@ + decimal(edge as nat) + if claimed > 0 {
        " — claimed "@ + decimal(claimed) + " box(es), extra turn!"@
    } else {
        Seq::empty()
    }
}

/// Why `edge` cannot be played in `g`.
pub open spec fn move_error_text(g: GameView, edge: int) -> Seq<char> {
    if edge >= g.pos.geom.nedges() {
        "edge #"@ + decimal(edge as nat) + " is out of range"@
    } else {
        "edge #"@ + decimal(edge as nat) + " is already drawn"@
    }
}

/// Play `edge` for the side to move and describe the move; a move the rules
/// refuse leaves the game as it was and explains why.
pub fn play_edge(game: &mut Game, edge: EdgeId) -> (r: Result<String, String>)
    ensures
        r is Ok <==> old(game)@.pos.is_legal(edge as int),
        r matches Ok(m) ==> {
            &&& final(game)@ == old(game)@.after_play(edge as int)
            &&& m@ == played_text(
                old(game)@.current,
                edge as int,
                old(game)@.pos.newly_completed(edge as int).len(),
            )
        },
        r matches Err(m) ==> *final(game) == *old(game) && m@ == move_error_text(
            old(game)@,
            edge as int,
        ),
{
    let mover = game.current_player();
    let ghost before = game@;
    match game.play(edge) {
        Ok((result, _)) => {
            let mut msg = String::new();
            msg.append(crate::render::player_label(mover));
            msg.append(" played #");
            push_decimal(&mut msg, edge);
            if !result.completed.is_empty() {
                msg.append(" — claimed ");
                push_decimal(&mut msg, result.completed.len() as u16);
                msg.append(" box(es), extra turn!");
            }
            proof {
                assert(msg@ =~= played_text(
                    before.current,
                    edge as int,
                    before.pos.newly_completed(edge as int).len(),
                ));
            }
            Ok(msg)
        },
        Err(e) => {
            let mut msg = String::new();
            msg.append("edge #");
            push_decimal(&mut msg, edge);
            match e {
                MoveError::AlreadyDrawn => msg.append(" is already drawn"),
                MoveError::OutOfRange => msg.append(" is out of range"),
            }
            proof {
                assert(msg@ =~= move_error_text(before, edge as int));
            }
            Err(msg)
        },
    }
}

/// The board and the status line, set off by blank lines.
pub open spec fn state_text(g: GameView) -> Seq<char> {
    "\n"@ + board_text(g) + "\n"@ + status_text(g) + "\n"@ + "\n"@
}

/// The board and the status line, set off by blank lines.
pub fn render_state(game: &Game) -> (r: String)
    ensures
        r@ == state_text(game@),
{
    let mut out = String::new();
    out.append("\n");
    let board = render_board(game);
    out.append(board.as_str());
    out.append("\n");
    let status = render_status(game);
    out.append(status.as_str());
    out.append("\n");
    out.append("\n");
    proof {
        assert(out@ =~= state_text(game@));
    }
    out
}

/// The last line about a finished game.
pub open spec fn winner_text(w: Option<Winner>) -> Seq<char> {
    match w {
        Some(Winner::Player(Player::P1)) => "Winner: P1"@,
        Some(Winner::Player(Player::P2)) => "Winner: P2"@,
        Some(Winner::Draw) => "Draw!"@,
        None => "(no winner — unexpected)"@,
    }
}

/// What is printed when the game is over.
pub open spec fn game_over_text(g: GameView) -> Seq<char> {
    "\n=== Game over ===\n"@ + status_text(g) + "\n"@ + winner_text(g.winner()) + "\n"@
}

/// What is printed when the game is over: the final score and the winner.
pub fn render_game_over(game: &Game) -> (r: String)
    ensures
        r@ == game_over_text(game@),
{
    let mut out = String::new();
    out.append("\n=== Game over ===\n");
    let status = render_status(game);
    out.append(status.as_str());
    out.append("\n");
    match game.winner() {
        Some(Winner::Player(Player::P1)) => out.append("Winner: P1"),
        Some(Winner::Player(Player::P2)) => out.append("Winner: P2"),
        Some(Winner::Draw) => out.append("Draw!"),
        None => out.append("(no winner — unexpected)"),
    }
    out.append("\n");
    proof {
        assert(out@ =~= game_over_text(game@));
    }
    out
}

/// The answer to one input line: the text to print, and whether the session
/// ends after it.
pub struct Reply {
    pub text: String,
    pub quit: bool,
}

/// What one input line, read as `o`, prints, whether the session ends, and
/// the game after it.
pub open spec fn reply_to(g: GameView, o: CommandOutcome) -> (Seq<char>, bool, GameView) {
    match o {
        CommandOutcome::Command(Command::Quit) => ("Bye.\n"@, true, g),
        CommandOutcome::Command(Command::Help) => (
            help_text(g.pos.geom.nrows() as nat, g.pos.geom.ncols() as nat, g.pos.geom.nedges() as nat)
                + "\n"@,
            false,
            g,
        ),
        CommandOutcome::Command(Command::Legal) => (legal_text(g) + "\n"@, false, g),
        CommandOutcome::Command(Command::Board) => (state_text(g), false, g),
        CommandOutcome::Command(Command::Play(e)) => if g.pos.is_legal(e as int) {
            let next = g.after_play(e as int);
            (
                played_text(g.current, e as int, g.pos.newly_completed(e as int).len()) + "\n"@
                    + state_text(next),
                false,
                next,
            )
        } else {
            (move_error_text(g, e as int) + "\n"@, false, g)
        },
        _ => (command_error_text(o) + "  (type 'help')\n"@, false, g),
    }
}

/// Answer one input line of the playground: parse it against the board,
/// carry out a move, and say what to print.
pub fn respond(game: &mut Game, line: &str) -> (r: Reply)
    ensures
        (r.text@, r.quit, final(game)@) == reply_to(
            old(game)@,
            spec_command(line@, old(game)@.pos.geom),
        ),
{
    let ghost before = game@;
    let geom = game.geom();
    let parsed = Command::parse(line, geom);
    match parsed {
        Err(err) => {
            let mut text = command_message(&err);
            text.append("  (type 'help')\n");
            Reply { text, quit: false }
        },
        Ok(Command::Quit) => {
            let mut text = String::new();
            text.append("Bye.\n");
            Reply { text, quit: true }
        },
        Ok(Command::Help) => {
            let mut text = render_help(geom);
            text.append("\n");
            Reply { text, quit: false }
        },
        Ok(Command::Legal) => {
            let mut text = render_legal(game);
            text.append("\n");
            Reply { text, quit: false }
        },
        Ok(Command::Board) => Reply { text: render_state(game), quit: false },
        Ok(Command::Play(edge)) => match play_edge(game, edge) {
            Ok(msg) => {
                let mut text = msg;
                text.append("\n");
                let state = render_state(game);
                text.append(state.as_str());
                Reply { text, quit: false }
            },
            Err(msg) => {
                let mut text = msg;
                text.append("\n");
                Reply { text, quit: false }
            },
        },
    }
}

} // verus!

use vstd::prelude::*;
use vstd::slice::slice_subrange;
use vstd::string::StringSliceAdditionalSpecFns;
use crate::round::{ColourMap, ParseError, Round, round_from_map};
use crate::text::{count_of, decimal, find, find_from, join, parse_count, split, split_on, trim, trim_bytes};
use crate::round::{blue_name, green_name, red_name};

verus! {

broadcast use vstd::slice::group_slice_axioms;

pub open spec fn space_sep() -> Seq<u8> {
    seq![0x20u8]
}

pub open spec fn comma_sep() -> Seq<u8> {
    seq![0x2cu8, 0x20u8]
}

pub open spec fn semicolon_sep() -> Seq<u8> {
    seq![0x3bu8, 0x20u8]
}

pub open spec fn label_sep() -> Seq<u8> {
    seq![0x3au8, 0x20u8]
}

pub open spec fn newline_sep() -> Seq<u8> {
    seq![0x0au8]
}

/// Adds one `count colour` token to the colour map of a round.
pub open spec fn add_token(m: Map<Seq<u8>, u32>, token: Seq<u8>) -> Result<
    Map<Seq<u8>, u32>,
    ParseError,
> {
    let fields = split(token, space_sep());
    if fields.len() != 2 {
        Err(ParseError::MalformedToken)
    } else {
        match count_of(fields[0]) {
            None => Err(ParseError::InvalidCount),
            Some(c) => {
                let name = trim(fields[1]);
                if m.dom().contains(name) {
                    Err(ParseError::DuplicateColour)
                } else {
                    Ok(m.insert(name, c))
                }
            },
        }
    }
}

/// The colour map of a round's tokens, taken left to right; the first
/// failing token decides the error.
pub open spec fn colour_map_of(tokens: Seq<Seq<u8>>) -> Result<Map<Seq<u8>, u32>, ParseError>
    decreases tokens.len(),
{
    if tokens.len() == 0 {
        Ok(Map::empty())
    } else {
        match colour_map_of(tokens.drop_last()) {
            Err(e) => Err(e),
            Ok(m) => add_token(m, tokens.last()),
        }
    }
}

/// The round that the text of one round describes.
pub open spec fn round_of(text: Seq<u8>) -> Result<Round, ParseError> {
    match colour_map_of(split(text, comma_sep())) {
        Err(e) => Err(e),
        Ok(m) => round_from_map(m),
    }
}

/// The rounds of a sequence of round texts; the first failing one decides
/// the error.
pub open spec fn rounds_of(texts: Seq<Seq<u8>>) -> Result<Seq<Round>, ParseError>
    decreases texts.len(),
{
    if texts.len() == 0 {
        Ok(seq![])
    } else {
        match rounds_of(texts.drop_last()) {
            Err(e) => Err(e),
            Ok(rs) => match round_of(texts.last()) {
                Err(e) => Err(e),
                Ok(r) => Ok(rs.push(r)),
            },
        }
    }
}

/// The rounds that one line of the log describes.
pub open spec fn line_rounds(line: Seq<u8>) -> Result<Seq<Round>, ParseError> {
    let f = find_from(line, label_sep(), 0);
    if f < 0 {
        Err(ParseError::MissingSeparator)
    } else {
        let body = trim(line.skip(f + 2));
        if body.contains(0x3au8) {
            Err(ParseError::UnexpectedColon)
        } else {
            rounds_of(split(body, semicolon_sep()))
        }
    }
}

/// The token `<count> <name>`.
pub open spec fn token_text(count: u32, name: Seq<u8>) -> Seq<u8> {
    join(seq![decimal(count as nat), name], space_sep())
}

/// One token for each name, with the count at the same index.
pub open spec fn tokens_text(names: Seq<Seq<u8>>, counts: Seq<u32>) -> Seq<Seq<u8>> {
    Seq::new(names.len(), |i: int| token_text(counts[i], names[i]))
}

/// A round written with all three colours: `<r> red, <g> green, <b> blue`.
pub open spec fn round_text(r: Round) -> Seq<u8> {
    join(
        tokens_text(seq![red_name(), green_name(), blue_name()], seq![r.red, r.green, r.blue]),
        comma_sep(),
    )
}

/// A line of the log: the label, `": "`, and the rounds separated by `"; "`.
pub open spec fn game_text(label: Seq<u8>, rounds: Seq<Round>) -> Seq<u8> {
    label + label_sep() + join(rounds.map_values(|r: Round| round_text(r)), semicolon_sep())
}

/// One game: its identifier and its rounds in the order given.
#[derive(Debug, PartialEq, Eq)]
pub struct Game {
    pub game_id: u64,
    pub rounds: Vec<Round>,
}

pub ghost struct GameView {
    pub game_id: u64,
    pub rounds: Seq<Round>,
}

impl View for Game {
    type V = GameView;

    open spec fn view(&self) -> GameView {
        GameView { game_id: self.game_id, rounds: self.rounds@ }
    }
}

/// A split always yields at least one piece.
pub proof fn split_nonempty(s: Seq<u8>, sep: Seq<u8>)
    ensures
        split(s, sep).len() >= 1,
{
}

/// Decoded rounds match their texts one for one.
pub proof fn rounds_of_len(texts: Seq<Seq<u8>>)
    ensures
        rounds_of(texts) is Ok ==> rounds_of(texts)->Ok_0.len() == texts.len(),
    decreases texts.len(),
{
    if texts.len() > 0 {
        rounds_of_len(texts.drop_last());
    }
}

/// Once a prefix of the tokens fails, the whole round fails the same way.
proof fn colour_map_error_stays(tokens: Seq<Seq<u8>>, i: int)
    requires
        0 <= i <= tokens.len(),
        colour_map_of(tokens.take(i)) is Err,
    ensures
        colour_map_of(tokens) == colour_map_of(tokens.take(i)),
    decreases tokens.len() - i,
{
    if i < tokens.len() {
        assert(tokens.take(i + 1).drop_last() =~= tokens.take(i));
        colour_map_error_stays(tokens, i + 1);
    } else {
        assert(tokens.take(i) =~= tokens);
    }
}

/// Once a prefix of the rounds fails, the whole line fails the same way.
proof fn rounds_error_stays(texts: Seq<Seq<u8>>, i: int)
    requires
        0 <= i <= texts.len(),
        rounds_of(texts.take(i)) is Err,
    ensures
        rounds_of(texts) == rounds_of(texts.take(i)),
    decreases texts.len() - i,
{
    if i < texts.len() {
        assert(texts.take(i + 1).drop_last() =~= texts.take(i));
        rounds_error_stays(texts, i + 1);
    } else {
        assert(texts.take(i) =~= texts);
    }
}

/// Decodes the text of one round, such as `3 blue, 4 red`.
pub fn decode_round(text: &[u8]) -> (r: Result<Round, ParseError>)
    ensures
        r == round_of(text@),
{
    let comma = vec![0x2cu8, 0x20u8];
    let space = vec![0x20u8];
    proof {
        assert(comma@ =~= comma_sep());
        assert(space@ =~= space_sep());
    }
    let tokens = split_on(text, comma.as_slice());
    let ghost toks = split(text@, comma_sep());
    let mut map = ColourMap::new();
    let mut i: usize = 0;
    proof {
        assert(toks.take(0) =~= Seq::<Seq<u8>>::empty());
    }
    while i < tokens.len()
        invariant
            space@ == space_sep(),
            tokens@.len() == toks.len(),
            forall|k: int| 0 <= k < tokens@.len() ==> #[trigger] tokens@[k]@ == toks[k],
            i <= tokens@.len(),
            toks == split(text@, comma_sep()),
            map.wf(),
            colour_map_of(toks.take(i as int)) == Ok::<Map<Seq<u8>, u32>, ParseError>(
                map.view(),
            ),
        decreases tokens@.len() - i,
    {
        let token = tokens[i];
        proof {
            assert(toks.take(i + 1).drop_last() =~= toks.take(i as int));
            assert(toks.take(i + 1).last() == token@);
        }
        let fields = split_on(token, space.as_slice());
        if fields.len() != 2 {
            proof {
                colour_map_error_stays(toks, i as int + 1);
            }
            return Err(ParseError::MalformedToken);
        }
        let count = match parse_count(fields[0]) {
            Some(c) => c,
            None => {
                proof {
                    colour_map_error_stays(toks, i as int + 1);
                }
                return Err(ParseError::InvalidCount);
            },
        };
        let name = trim_bytes(fields[1]);
        match map.insert(name, count) {
            Ok(()) => {},
            Err(e) => {
                proof {
                    colour_map_error_stays(toks, i as int + 1);
                }
                return Err(e);
            },
        }
        i = i + 1;
    }
    proof {
        assert(toks.take(i as int) =~= toks);
    }
    Round::from_hash_map(&map)
}

/// Decodes one line of the log, `Game <label>: <round>; <round>; ...`,
/// into a game with the given identifier; the label itself is not read.
pub fn decode_line(line: &[u8], game_id: u64) -> (r: Result<Game, ParseError>)
    ensures
        match r {
            Ok(g) => line_rounds(line@) == Ok::<Seq<Round>, ParseError>(g.rounds@) && g.game_id
                == game_id && g.rounds@.len() >= 1,
            Err(e) => line_rounds(line@) == Err::<Seq<Round>, ParseError>(e),
        },
{
    let label = vec![0x3au8, 0x20u8];
    let semicolon = vec![0x3bu8, 0x20u8];
    proof {
        assert(label@ =~= label_sep());
        assert(semicolon@ =~= semicolon_sep());
    }
    let f = match find(line, label.as_slice()) {
        Some(f) => f,
        None => {
            return Err(ParseError::MissingSeparator);
        },
    };
    proof {
        crate::text::find_from_bounds(line@, label_sep(), 0);
    }
    let n = line.len();
    let after = slice_subrange(line, f + 2, n);
    proof {
        assert(after@ =~= line@.skip(f + 2));
    }
    let body = trim_bytes(after);
    let mut k: usize = 0;
    while k < body.len()
        invariant
            line_rounds(line@) == (if body@.contains(0x3au8) {
                Err(ParseError::UnexpectedColon)
            } else {
                rounds_of(split(body@, semicolon_sep()))
            }),
            k <= body@.len(),
            forall|j: int| 0 <= j < k ==> body@[j] != 0x3au8,
        decreases body@.len() - k,
    {
        if body[k] == 0x3au8 {
            proof {
                assert(body@.contains(0x3au8));
            }
            return Err(ParseError::UnexpectedColon);
        }
        k = k + 1;
    }
    proof {
        assert(!body@.contains(0x3au8));
    }
    let texts = split_on(body, semicolon.as_slice());
    let ghost segs = split(body@, semicolon_sep());
    let mut rounds: Vec<Round> = Vec::new();
    let mut i: usize = 0;
    proof {
        assert(segs.take(0) =~= Seq::<Seq<u8>>::empty());
    }
    while i < texts.len()
        invariant
            line_rounds(line@) == rounds_of(segs),
            texts@.len() == segs.len(),
            forall|j: int| 0 <= j < texts@.len() ==> #[trigger] texts@[j]@ == segs[j],
            i <= texts@.len(),
            rounds_of(segs.take(i as int)) == Ok::<Seq<Round>, ParseError>(rounds@),
        decreases texts@.len() - i,
    {
        proof {
            assert(segs.take(i + 1).drop_last() =~= segs.take(i as int));
            assert(segs.take(i + 1).last() == texts@[i as int]@);
        }
        let round = match decode_round(texts[i]) {
            Ok(round) => round,
            Err(e) => {
                proof {
                    rounds_error_stays(segs, i as int + 1);
                }
                return Err(e);
            },
        };
        rounds.push(round);
        i = i + 1;
    }
    proof {
        assert(segs.take(i as int) =~= segs);
        rounds_of_len(segs);
        split_nonempty(body@, semicolon_sep());
    }
    Ok(Game { game_id, rounds })
}

/// A line without the carriage return that may end it.
pub open spec fn strip_cr(line: Seq<u8>) -> Seq<u8> {
    if line.len() > 0 && line.last() == 0x0du8 {
        line.drop_last()
    } else {
        line
    }
}

/// The lines of a text, as `str::lines` finds them: split at each `\n`,
/// a `\r` before it dropped, and no empty line after a final `\n`.
pub open spec fn lines_of(text: Seq<u8>) -> Seq<Seq<u8>> {
    let parts = split(text, newline_sep());
    let ended = parts.drop_last().map_values(|l: Seq<u8>| strip_cr(l));
    if parts.last().len() == 0 {
        ended
    } else {
        ended.push(parts.last())
    }
}

pub open spec fn is_blank(line: Seq<u8>) -> bool {
    trim(line).len() == 0
}

/// A line that could not be decoded, with its 1-based position in the text.
#[derive(Clone, Copy, Debug, PartialEq, Eq, Structural)]
pub struct LineError {
    pub line: usize,
    pub error: ParseError,
}

/// Why a whole log could not be reduced to its answer.
#[derive(Clone, Copy, Debug, PartialEq, Eq, Structural)]
pub enum CalculationError {
    /// A line could not be decoded.
    Parse(LineError),
    /// The answer does not fit in the result type.
    Overflow,
}

/// The games of a text's lines. Blank lines are skipped; the other lines
/// are numbered from 1 in order, and that number is the game's identifier.
/// The first line that fails decides the error.
pub open spec fn games_of(lines: Seq<Seq<u8>>) -> Result<Seq<GameView>, LineError>
    decreases lines.len(),
{
    if lines.len() == 0 {
        Ok(seq![])
    } else {
        match games_of(lines.drop_last()) {
            Err(e) => Err(e),
            Ok(gs) => if is_blank(lines.last()) {
                Ok(gs)
            } else {
                match line_rounds(lines.last()) {
                    Err(e) => Err(LineError { line: lines.len() as usize, error: e }),
                    Ok(rs) => Ok(gs.push(GameView { game_id: (gs.len() + 1) as u64, rounds: rs })),
                }
            },
        }
    }
}

/// Once the lines up to some point fail, the whole text fails the same way.
proof fn games_error_stays(lines: Seq<Seq<u8>>, i: int)
    requires
        0 <= i <= lines.len(),
        games_of(lines.take(i)) is Err,
    ensures
        games_of(lines) == games_of(lines.take(i)),
    decreases lines.len() - i,
{
    if i < lines.len() {
        assert(lines.take(i + 1).drop_last() =~= lines.take(i));
        games_error_stays(lines, i + 1);
    } else {
        assert(lines.take(i) =~= lines);
    }
}

/// The lines of a text.
pub fn split_lines<'a>(text: &'a [u8]) -> (r: Vec<&'a [u8]>)
    ensures
        r@.len() == lines_of(text@).len(),
        forall|k: int| 0 <= k < r@.len() ==> #[trigger] r@[k]@ == lines_of(text@)[k],
{
    let newline = vec![0x0au8];
    proof {
        assert(newline@ =~= newline_sep());
    }
    let parts = split_on(text, newline.as_slice());
    let ghost ps = split(text@, newline_sep());
    proof {
        split_nonempty(text@, newline_sep());
    }
    let mut out: Vec<&'a [u8]> = Vec::new();
    let mut i: usize = 0;
    while i < parts.len() - 1
        invariant
            parts@.len() == ps.len(),
            ps.len() >= 1,
            forall|k: int| 0 <= k < parts@.len() ==> #[trigger] parts@[k]@ == ps[k],
            i < parts@.len(),
            out@.len() == i,
            forall|k: int| 0 <= k < i ==> #[trigger] out@[k]@ == strip_cr(ps[k]),
        decreases parts@.len() - i,
    {
        let part = parts[i];
        let n = part.len();
        if n > 0 && part[n - 1] == 0x0du8 {
            let cut = slice_subrange(part, 0, n - 1);
            proof {
                assert(cut@ =~= part@.drop_last());
            }
            out.push(cut);
        } else {
            out.push(part);
        }
        i = i + 1;
    }
    let last = parts[i];
    proof {
        assert(ps.last() == last@);
    }
    if last.len() > 0 {
        out.push(last);
    }
    out
}

/// Decodes one line of the log into a game with the given identifier.
pub fn parse_line(line: &str, game_id: u64) -> (r: Result<Game, ParseError>)
    ensures
        match r {
            Ok(g) => line_rounds(line.spec_bytes()) == Ok::<Seq<Round>, ParseError>(g.rounds@)
                && g.game_id == game_id && g.rounds@.len() >= 1,
            Err(e) => line_rounds(line.spec_bytes()) == Err::<Seq<Round>, ParseError>(e),
        },
{
    decode_line(line.as_bytes(), game_id)
}

/// Decodes every line of a log.
pub fn parse_games(text: &str) -> (r: Result<Vec<Game>, LineError>)
    ensures
        match r {
            Ok(gs) => games_of(lines_of(text.spec_bytes())) == Ok::<Seq<GameView>, LineError>(
                gs@.map_values(|g: Game| g@),
            ) && forall|k: int| 0 <= k < gs@.len() ==> #[trigger] gs@[k].rounds@.len() >= 1,
            Err(e) => games_of(lines_of(text.spec_bytes())) == Err::<Seq<GameView>, LineError>(e),
        },
{
    let lines = split_lines(text.as_bytes());
    let ghost ls = lines_of(text.spec_bytes());
    let mut games: Vec<Game> = Vec::new();
    let mut i: usize = 0;
    proof {
        assert(ls.take(0) =~= Seq::<Seq<u8>>::empty());
        assert(games@.map_values(|g: Game| g@) =~= Seq::<GameView>::empty());
    }
    while i < lines.len()
        invariant
            ls == lines_of(text.spec_bytes()),
            lines@.len() == ls.len(),
            forall|k: int| 0 <= k < lines@.len() ==> #[trigger] lines@[k]@ == ls[k],
            i <= lines@.len(),
            games@.len() <= i,
            games_of(ls.take(i as int)) == Ok::<Seq<GameView>, LineError>(
                games@.map_values(|g: Game| g@),
            ),
            forall|k: int| 0 <= k < games@.len() ==> #[trigger] games@[k].rounds@.len() >= 1,
        decreases lines@.len() - i,
    {
        let line = lines[i];
        proof {
            assert(ls.take(i + 1).drop_last() =~= ls.take(i as int));
            assert(ls.take(i + 1).last() == line@);
        }
        let trimmed = trim_bytes(line);
        if trimmed.len() != 0 {
            let game_id = (games.len() + 1) as u64;
            match decode_line(line, game_id) {
                Ok(game) => {
                    let ghost before = games@.map_values(|g: Game| g@);
                    games.push(game);
                    proof {
                        assert(games@.map_values(|g: Game| g@) =~= before.push(game@));
                    }
                },
                Err(e) => {
                    proof {
                        games_error_stays(ls, i as int + 1);
                    }
                    return Err(LineError { line: i + 1, error: e });
                },
            }
        }
        i = i + 1;
    }
    proof {
        assert(ls.take(i as int) =~= ls);
    }
    Ok(games)
}

} // verus!

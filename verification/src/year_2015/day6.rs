//! A thousand by a thousand lights, switched rectangle by rectangle.

use crate::common::answers::{first_of, second_of};
use crate::common::grid_board::{
    count_in_row, count_in_rows, sum_in_row, sum_in_rows, Board, BoardContent, Xy,
};
use crate::common::parsing::{decimal_up_to, parse_i64, read_regex_records, regex_records, same_text};
use vstd::prelude::*;

verus! {

/// One light: whether it is on, and how bright it is.
#[derive(Clone, Copy, Debug, Eq, PartialEq, Structural)]
pub struct LightState {
    pub on: bool,
    pub brightness: u32,
}

impl LightState {
    /// The light after it was turned on: on, and brighter by 1.
    pub open spec fn turned_on(self) -> LightState {
        LightState { on: true, brightness: (self.brightness + 1) as u32 }
    }

    /// The light after it was turned off: off, and darker by 1 unless it
    /// was at 0.
    pub open spec fn turned_off(self) -> LightState {
        LightState {
            on: false,
            brightness: if self.brightness == 0 {
                0
            } else {
                (self.brightness - 1) as u32
            },
        }
    }

    /// The light after it was toggled: on if it was off and off if it was
    /// on, and brighter by 2.
    pub open spec fn toggled(self) -> LightState {
        LightState { on: !self.on, brightness: (self.brightness + 2) as u32 }
    }

    /// Turns the light on.
    pub fn turn_on(&self) -> (r: LightState)
        requires
            self.brightness < u32::MAX,
        ensures
            r == self.turned_on(),
            r.brightness == self.brightness + 1,
    {
        LightState { on: true, brightness: self.brightness + 1 }
    }

    /// Turns the light off.
    pub fn turn_off(&self) -> (r: LightState)
        ensures
            r == self.turned_off(),
            r.brightness <= self.brightness,
    {
        LightState {
            on: false,
            brightness: if self.brightness == 0 {
                0
            } else {
                self.brightness - 1
            },
        }
    }

    /// Toggles the light.
    pub fn toggle(&self) -> (r: LightState)
        requires
            self.brightness <= u32::MAX - 2,
        ensures
            r == self.toggled(),
            r.brightness == self.brightness + 2,
    {
        LightState { on: !self.on, brightness: self.brightness + 2 }
    }
}

impl BoardContent for LightState {
    /// `1` is a light that is on at brightness 1, `0` one that is off at
    /// brightness 0.
    open spec fn of_char(c: char) -> Option<LightState> {
        if c == '1' {
            Some(LightState { on: true, brightness: 1 })
        } else if c == '0' {
            Some(LightState { on: false, brightness: 0 })
        } else {
            None
        }
    }

    /// `1` for a light that is on, `0` for one that is off.
    open spec fn glyph(self) -> char {
        if self.on {
            '1'
        } else {
            '0'
        }
    }

    fn try_from_char(c: char) -> (r: Option<LightState>) {
        if c == '1' {
            Some(LightState { on: true, brightness: 1 })
        } else if c == '0' {
            Some(LightState { on: false, brightness: 0 })
        } else {
            None
        }
    }

    fn to_glyph(&self) -> (c: char) {
        if self.on {
            '1'
        } else {
            '0'
        }
    }
}

/// The lights of the puzzle.
pub type Lights = Board<LightState>;

/// What a command does to each light of its rectangle.
#[derive(Clone, Copy, Debug, Eq, PartialEq, Structural)]
pub enum CommandAction {
    TurnOn,
    TurnOff,
    Toggle,
}

/// An action on the lights from the corner `from` through the corner
/// `to`, both included.
#[derive(Clone, Copy, Debug, Eq, PartialEq, Structural)]
pub struct Command {
    pub action: CommandAction,
    pub from: Xy,
    pub to: Xy,
}

/// The number of rows of lights, and of lights in a row.
pub const SIDE: usize = 1000;

/// The most commands that are run: with no more, no brightness leaves its
/// 32 bits.
pub const MOST_COMMANDS: usize = 0x7fff_ffff;

/// The light after the action.
pub open spec fn act(action: CommandAction, light: LightState) -> LightState {
    match action {
        CommandAction::TurnOn => light.turned_on(),
        CommandAction::TurnOff => light.turned_off(),
        CommandAction::Toggle => light.toggled(),
    }
}

/// The light in column `x` of row `y` lies in the rectangle of the
/// command.
pub open spec fn in_command(command: Command, x: int, y: int) -> bool {
    command.from.x <= x <= command.to.x && command.from.y <= y <= command.to.y
}

/// The rectangle of the command holds no light, or only lights that are
/// there.
pub open spec fn applies(command: Command) -> bool {
    &&& command.to.x < i64::MAX
    &&& command.to.y < i64::MAX
    &&& (command.from.x > command.to.x || command.from.y > command.to.y || (0 <= command.from.x
        && command.to.x < SIDE && 0 <= command.from.y && command.to.y < SIDE))
}

/// Every command applies.
pub open spec fn all_apply(commands: Seq<Command>) -> bool {
    forall|k: int| 0 <= k < commands.len() ==> applies(#[trigger] commands[k])
}

/// The lights before the first command: all off, at brightness 0.
pub open spec fn dark() -> Seq<Seq<LightState>> {
    Seq::new(
        SIDE as nat,
        |y: int| Seq::new(SIDE as nat, |x: int| LightState { on: false, brightness: 0 }),
    )
}

/// The lights after the command.
pub open spec fn apply(lights: Seq<Seq<LightState>>, command: Command) -> Seq<Seq<LightState>> {
    Seq::new(
        lights.len(),
        |y: int|
            Seq::new(
                lights[y].len(),
                |x: int|
                    if in_command(command, x, y) {
                        act(command.action, lights[y][x])
                    } else {
                        lights[y][x]
                    },
            ),
    )
}

/// The lights after the first `k` commands.
pub open spec fn lights_after(commands: Seq<Command>, k: nat) -> Seq<Seq<LightState>>
    decreases k,
{
    if k == 0 {
        dark()
    } else {
        apply(lights_after(commands, (k - 1) as nat), commands[k - 1])
    }
}

/// The places of the lights that are on.
pub open spec fn lit(lights: Seq<Seq<LightState>>) -> spec_fn(int, int) -> bool {
    |x: int, y: int| lights[y][x].on
}

/// The brightness of the light at each place.
pub open spec fn glow(lights: Seq<Seq<LightState>>) -> spec_fn(int, int) -> nat {
    |x: int, y: int| lights[y][x].brightness as nat
}

/// The number of lights that are on.
pub open spec fn lit_count(lights: Seq<Seq<LightState>>) -> nat {
    count_in_rows(lit(lights), SIDE as nat, SIDE as nat)
}

/// The sum of the brightness of all lights.
pub open spec fn total_brightness(lights: Seq<Seq<LightState>>) -> nat {
    sum_in_rows(glow(lights), SIDE as nat, SIDE as nat)
}

/// The action that the words stand for.
pub open spec fn action_of(words: Seq<char>) -> Option<CommandAction> {
    if words == "turn on"@ {
        Some(CommandAction::TurnOn)
    } else if words == "turn off"@ {
        Some(CommandAction::TurnOff)
    } else if words == "toggle"@ {
        Some(CommandAction::Toggle)
    } else {
        None
    }
}

/// The number that the text spells, if it spells one that fits in a
/// `Scalar`.
pub open spec fn scalar_of(text: Seq<char>) -> Option<i64> {
    match decimal_up_to(text, i64::MAX as int) {
        Some(value) => Some(value as i64),
        None => None,
    }
}

/// The command that a record stands for: the text that matched, the
/// action, and the four coordinates of the two corners.
pub open spec fn command_of(record: Seq<Seq<char>>) -> Option<Command> {
    if record.len() == 6 && action_of(record[1]) is Some && scalar_of(record[2]) is Some
        && scalar_of(record[3]) is Some && scalar_of(record[4]) is Some && scalar_of(
        record[5],
    ) is Some {
        Some(
            Command {
                action: action_of(record[1])->Some_0,
                from: Xy { x: scalar_of(record[2])->Some_0, y: scalar_of(record[3])->Some_0 },
                to: Xy { x: scalar_of(record[4])->Some_0, y: scalar_of(record[5])->Some_0 },
            },
        )
    } else {
        None
    }
}

/// The commands that the records stand for, or `None` where some record
/// stands for none.
pub open spec fn commands_of(records: Seq<Seq<Seq<char>>>) -> Option<Seq<Command>> {
    if forall|i: int| 0 <= i < records.len() ==> command_of(#[trigger] records[i]) is Some {
        Some(Seq::new(records.len(), |i: int| command_of(records[i])->Some_0))
    } else {
        None
    }
}

/// Reads the action from its words.
fn read_action(words: &str) -> (r: Option<CommandAction>)
    ensures
        r == action_of(words@),
{
    if same_text(words, "turn on") {
        Some(CommandAction::TurnOn)
    } else if same_text(words, "turn off") {
        Some(CommandAction::TurnOff)
    } else if same_text(words, "toggle") {
        Some(CommandAction::Toggle)
    } else {
        None
    }
}

/// Reads a coordinate.
fn read_scalar(text: &str) -> (r: Option<i64>)
    ensures
        r == scalar_of(text@),
{
    parse_i64(text)
}

/// Reads one command from each record; see [`command_of`].
pub fn commands_from_records(records: &Vec<Vec<String>>) -> (r: Option<Vec<Command>>)
    ensures
        match r {
            Some(commands) => commands_of(records.deep_view()) == Some(commands@),
            None => commands_of(records.deep_view()) is None,
        },
{
    let mut result: Vec<Command> = Vec::new();
    let mut i: usize = 0;
    while i < records.len()
        invariant
            i <= records.len(),
            result.len() == i,
            forall|j: int|
                0 <= j < i ==> command_of(#[trigger] records.deep_view()[j]) == Some(result@[j]),
        decreases records.len() - i,
    {
        let record = &records[i];
        assert(records.deep_view()[i as int] == record.deep_view());
        if record.len() != 6 {
            return None;
        }
        assert(record.deep_view()[1] == record[1]@);
        assert(record.deep_view()[2] == record[2]@);
        assert(record.deep_view()[3] == record[3]@);
        assert(record.deep_view()[4] == record[4]@);
        assert(record.deep_view()[5] == record[5]@);
        let action = read_action(record[1].as_str());
        let from_x = read_scalar(record[2].as_str());
        let from_y = read_scalar(record[3].as_str());
        let to_x = read_scalar(record[4].as_str());
        let to_y = read_scalar(record[5].as_str());
        match (action, from_x, from_y, to_x, to_y) {
            (Some(action), Some(from_x), Some(from_y), Some(to_x), Some(to_y)) => {
                let from = Xy::new(from_x, from_y);
                let to = Xy::new(to_x, to_y);
                result.push(Command { action, from, to });
            },
            _ => {
                return None;
            },
        }
        i = i + 1;
    }
    assert(result@ =~= commands_of(records.deep_view())->Some_0);
    Some(result)
}

/// The regular expression that finds a command in a line.
pub const COMMAND_PATTERN: &'static str =
    "(turn on|turn off|toggle) (\\d+),(\\d+) through (\\d+),(\\d+)";

/// Reads one command from every line that holds one, and passes over the
/// other lines. Fails where a coordinate is written in digits other than
/// `0` to `9` or does not fit in a `Scalar`.
pub fn read_input(lines: &Vec<String>) -> (r: Option<Vec<Command>>)
    ensures
        match r {
            Some(commands) => commands_of(regex_records(lines.deep_view(), COMMAND_PATTERN@))
                == Some(commands@),
            None => commands_of(regex_records(lines.deep_view(), COMMAND_PATTERN@)) is None,
        },
{
    let records = read_regex_records(lines, COMMAND_PATTERN);
    commands_from_records(&records)
}

/// Tells whether the command applies.
fn command_applies(command: &Command) -> (ok: bool)
    ensures
        ok == applies(*command),
{
    command.to.x < i64::MAX && command.to.y < i64::MAX && (command.from.x > command.to.x
        || command.from.y > command.to.y || (0 <= command.from.x && command.to.x < SIDE as i64 && 0
        <= command.from.y && command.to.y < SIDE as i64))
}

/// The lights before the first command.
fn dark_lights() -> (lights: Lights)
    ensures
        lights@ == dark(),
        lights.is_grid(),
{
    let mut board: Vec<Vec<LightState>> = Vec::new();
    let mut y: usize = 0;
    while y < SIDE
        invariant
            y <= SIDE,
            board.len() == y,
            forall|r: int| 0 <= r < y ==> (#[trigger] board[r])@ == dark()[r],
        decreases SIDE - y,
    {
        let mut row: Vec<LightState> = Vec::new();
        let mut x: usize = 0;
        while x < SIDE
            invariant
                x <= SIDE,
                row.len() == x,
                forall|c: int|
                    0 <= c < x ==> #[trigger] row[c] == (LightState { on: false, brightness: 0 }),
            decreases SIDE - x,
        {
            row.push(LightState { on: false, brightness: 0 });
            x = x + 1;
        }
        assert(row@ =~= dark()[y as int]);
        board.push(row);
        y = y + 1;
    }
    let lights = Board { board };
    assert(lights@ =~= dark());
    lights
}

/// Counts the lights that are on and adds up the brightness of all.
fn measure(lights: &Lights) -> (r: (i64, i64))
    requires
        lights.is_grid(),
        lights@.len() == SIDE,
        lights@[0].len() == SIDE,
    ensures
        r.0 == lit_count(lights@),
        r.1 == total_brightness(lights@),
{
    let ghost grid = lights@;
    let mut it = lights.iter();
    let mut count: i64 = 0;
    let mut brightness: i64 = 0;
    loop
        invariant
            it.wf(),
            it.board@ == grid,
            grid.len() == SIDE,
            grid[0].len() == SIDE,
            it.current_y <= SIDE,
            it.current_x <= SIDE,
            it.current_y == SIDE ==> it.current_x == 0,
            count == count_in_rows(lit(grid), SIDE as nat, it.current_y as nat) + count_in_row(
                lit(grid),
                it.current_y as int,
                it.current_x as nat,
            ),
            brightness == sum_in_rows(glow(grid), SIDE as nat, it.current_y as nat) + sum_in_row(
                glow(grid),
                it.current_y as int,
                it.current_x as nat,
            ),
            0 <= count <= 1000 * it.current_y + it.current_x,
            0 <= brightness <= (1000 * it.current_y + it.current_x) * 0xffff_ffff,
        ensures
            count == lit_count(grid),
            brightness == total_brightness(grid),
        decreases SIDE - it.current_y, SIDE - it.current_x,
    {
        let ghost x = it.current_x;
        let ghost y = it.current_y;
        match it.next() {
            Some((_, light)) => {
                if light.on {
                    count = count + 1;
                }
                brightness = brightness + light.brightness as i64;
                proof {
                    assert(light == grid[y as int][x as int]);
                    assert(lit(grid)(x as int, y as int) == light.on);
                    assert(glow(grid)(x as int, y as int) == light.brightness);
                }
            },
            None => {
                break ;
            },
        }
    }
    (count, brightness)
}

/// The number of lights that are on after the commands and the sum of
/// the brightness of all lights, or `None` where some command does not
/// apply or there are more than `MOST_COMMANDS` commands.
pub open spec fn lights_outcome(commands: Seq<Command>) -> Option<(i64, i64)> {
    if all_apply(commands) && commands.len() <= MOST_COMMANDS {
        Some(
            (
                lit_count(lights_after(commands, commands.len())) as i64,
                total_brightness(lights_after(commands, commands.len())) as i64,
            ),
        )
    } else {
        None
    }
}

/// Runs the commands in their order on lights that are all off, and
/// returns the number of lights that are on at the end and the sum of the
/// brightness of all lights.
///
/// Fails exactly where some command does not apply, that is where its
/// rectangle holds a place without a light, or where there are more than
/// `MOST_COMMANDS` commands.
pub fn run_commands(commands: &Vec<Command>) -> (r: Option<(i64, i64)>)
    ensures
        r == lights_outcome(commands@),
{
    if commands.len() > MOST_COMMANDS {
        return None;
    }
    let mut lights = dark_lights();
    let mut k: usize = 0;
    while k < commands.len()
        invariant
            k <= commands.len() <= MOST_COMMANDS,
            lights.is_grid(),
            lights@.len() == SIDE,
            lights@[0].len() == SIDE,
            lights@ == lights_after(commands@, k as nat),
            forall|j: int| 0 <= j < k ==> applies(#[trigger] commands@[j]),
            forall|y: int, x: int|
                0 <= y < SIDE && 0 <= x < SIDE ==> (#[trigger] lights@[y][x]).brightness <= 2 * k,
        decreases commands.len() - k,
    {
        let command = commands[k];
        if !command_applies(&command) {
            return None;
        }
        let ghost before = lights@;
        let br = command.to.plus(Xy::new(1, 1));
        match command.action {
            CommandAction::Toggle => {
                let toggle = |v: LightState| -> (r: LightState)
                    requires
                        v.brightness <= u32::MAX - 2,
                    ensures
                        r == v.toggled(),
                        r.brightness == v.brightness + 2,
                    {
                        let r = v.toggle();
                        r
                    };
                lights.update_rect(command.from, br, toggle);
            },
            CommandAction::TurnOff => {
                let turn_off = |v: LightState| -> (r: LightState)
                    ensures
                        r == v.turned_off(),
                        r.brightness <= v.brightness,
                    {
                        let r = v.turn_off();
                        r
                    };
                lights.update_rect(command.from, br, turn_off);
            },
            CommandAction::TurnOn => {
                let turn_on = |v: LightState| -> (r: LightState)
                    requires
                        v.brightness < u32::MAX,
                    ensures
                        r == v.turned_on(),
                        r.brightness == v.brightness + 1,
                    {
                        let r = v.turn_on();
                        r
                    };
                lights.update_rect(command.from, br, turn_on);
            },
        }
        proof {
            let after = apply(before, command);
            assert(lights@ =~~= after) by {
                assert forall|y: int| 0 <= y < SIDE implies #[trigger] lights@[y] =~= after[y] by {
                    assert(lights@[y].len() == lights@[0].len());
                    assert(before[y].len() == before[0].len());
                    assert forall|x: int| 0 <= x < SIDE implies lights@[y][x] == after[y][x] by {
                        assert(lights@[y][x].brightness <= 2 * k + 2);
                    }
                }
            }
            assert forall|y: int, x: int| 0 <= y < SIDE && 0 <= x < SIDE implies (
            #[trigger] lights@[y][x]).brightness <= 2 * (k + 1) by {
                assert(before[y][x].brightness <= 2 * k);
                assert(before[y].len() == before[0].len());
            }
        }
        k = k + 1;
    }
    let (count, brightness) = measure(&lights);
    Some((count, brightness))
}

/// What [`solution`] returns for the lines: nothing where the commands
/// cannot be read, else what [`run_commands`] gives for them.
pub open spec fn outcome(lines: Seq<Seq<char>>) -> Option<(i64, i64)> {
    match commands_of(regex_records(lines, COMMAND_PATTERN@)) {
        Some(commands) => lights_outcome(commands),
        None => None,
    }
}

/// Reads the commands and runs them: see [`read_input`] and
/// [`run_commands`].
pub fn solution(lines: &Vec<String>) -> (r: Option<(i64, i64)>)
    ensures
        r == outcome(lines.deep_view()),
{
    match read_input(lines) {
        Some(commands) => run_commands(&commands),
        None => None,
    }
}

/// The number of lights that are on at the end; fails as [`solution`]
/// does.
pub fn solution_a(lines: &Vec<String>) -> (r: Option<i64>)
    ensures
        r == first_of(outcome(lines.deep_view())),
{
    match solution(lines) {
        Some((count, _)) => Some(count),
        None => None,
    }
}

/// The sum of the brightness of all lights at the end; fails as
/// [`solution`] does.
pub fn solution_b(lines: &Vec<String>) -> (r: Option<i64>)
    ensures
        r == second_of(outcome(lines.deep_view())),
{
    match solution(lines) {
        Some((_, brightness)) => Some(brightness),
        None => None,
    }
}

} // verus!

use advent::common::grid_board::{Board, BoardContent, Xy};
use advent::year_2015::day6::{
    commands_from_records, read_input, run_commands, solution, solution_a, solution_b, Command,
    CommandAction, LightState,
};

const EXAMPLE: &str = "turn on 0,0 through 999,999
toggle 0,0 through 999,0
turn off 499,499 through 500,500
";

fn lines_of(text: &str) -> Vec<String> {
    text.lines().map(|l| l.to_string()).collect()
}

fn command(action: CommandAction, fx: i64, fy: i64, tx: i64, ty: i64) -> Command {
    Command { action, from: Xy::new(fx, fy), to: Xy::new(tx, ty) }
}

#[test]
fn test_example_a() {
    assert_eq!(solution_a(&lines_of(EXAMPLE)), Some(998996));
}

#[test]
fn day6_test_example_b() {
    assert_eq!(solution_b(&lines_of(EXAMPLE)), Some(1001996));
}

#[test]
fn solution_gives_both_numbers() {
    assert_eq!(solution(&lines_of(EXAMPLE)), Some((998996, 1001996)));
    assert_eq!(solution(&Vec::new()), Some((0, 0)));
}

#[test]
fn light_is_switched() {
    let dark = LightState { on: false, brightness: 0 };
    assert_eq!(dark.turn_on(), LightState { on: true, brightness: 1 });
    assert_eq!(dark.turn_off(), LightState { on: false, brightness: 0 });
    assert_eq!(dark.toggle(), LightState { on: true, brightness: 2 });
    let lit = LightState { on: true, brightness: 7 };
    assert_eq!(lit.turn_on(), LightState { on: true, brightness: 8 });
    assert_eq!(lit.turn_off(), LightState { on: false, brightness: 6 });
    assert_eq!(lit.toggle(), LightState { on: false, brightness: 9 });
}

#[test]
fn light_is_read_and_written_as_a_digit() {
    assert_eq!(LightState::try_from_char('1'), Some(LightState { on: true, brightness: 1 }));
    assert_eq!(LightState::try_from_char('0'), Some(LightState { on: false, brightness: 0 }));
    assert_eq!(LightState::try_from_char('2'), None);
    assert_eq!(LightState { on: true, brightness: 40 }.to_glyph(), '1');
    assert_eq!(LightState { on: false, brightness: 40 }.to_glyph(), '0');
}

#[test]
fn lights_stand_on_a_board() {
    let lines = vec!["10".to_string(), "01".to_string()];
    let mut lights: Board<LightState> = Board::from_strings(&lines);
    assert_eq!(lights.at(Xy::new(0, 0)), LightState { on: true, brightness: 1 });
    assert_eq!(lights.at(Xy::new(1, 0)), LightState { on: false, brightness: 0 });
    lights.update_rect(Xy::new(0, 0), Xy::new(2, 1), |v: LightState| v.toggle());
    assert_eq!(lights.at(Xy::new(0, 0)), LightState { on: false, brightness: 3 });
    assert_eq!(lights.to_strings(), vec!["01".to_string(), "01".to_string()]);
}

#[test]
fn read_input_reads_the_three_actions() {
    let commands = read_input(&lines_of(
        "turn on 1,2 through 3,4\nnonsense\nplease toggle 5,6 through 7,8 now\nturn off 0,0 through 0,0\n",
    ))
    .unwrap();
    assert_eq!(
        commands,
        vec![
            command(CommandAction::TurnOn, 1, 2, 3, 4),
            command(CommandAction::Toggle, 5, 6, 7, 8),
            command(CommandAction::TurnOff, 0, 0, 0, 0),
        ]
    );
}

#[test]
fn read_input_fails_on_a_number_too_large() {
    assert_eq!(read_input(&lines_of("toggle 0,0 through 1,99999999999999999999")), None);
    assert_eq!(solution(&lines_of("toggle 0,0 through 1,99999999999999999999")), None);
}

#[test]
fn commands_from_records_checks_the_record() {
    let record = |words: &[&str]| -> Vec<String> { words.iter().map(|w| w.to_string()).collect() };
    assert_eq!(
        commands_from_records(&vec![record(&["toggle 1,2 through 3,4", "toggle", "1", "2", "3", "4"])]),
        Some(vec![command(CommandAction::Toggle, 1, 2, 3, 4)])
    );
    assert_eq!(
        commands_from_records(&vec![record(&["x", "dim", "1", "2", "3", "4"])]),
        None
    );
    assert_eq!(commands_from_records(&vec![record(&["x", "toggle", "1", "2", "3"])]), None);
    assert_eq!(
        commands_from_records(&vec![record(&["x", "turn on", "1", "", "3", "4"])]),
        None
    );
}

#[test]
fn run_commands_counts_and_sums() {
    let commands = vec![
        command(CommandAction::TurnOn, 0, 0, 1, 1),
        command(CommandAction::Toggle, 1, 1, 2, 2),
        command(CommandAction::TurnOff, 2, 2, 2, 2),
        command(CommandAction::TurnOff, 5, 5, 5, 5),
    ];
    assert_eq!(run_commands(&commands), Some((5, 11)));
}

#[test]
fn run_commands_passes_over_an_empty_rectangle() {
    let commands = vec![
        command(CommandAction::TurnOn, 5, 0, 4, 2000),
        command(CommandAction::TurnOn, -3, 7, 2000, 6),
    ];
    assert_eq!(run_commands(&commands), Some((0, 0)));
}

#[test]
fn run_commands_fails_outside_the_lights() {
    assert_eq!(run_commands(&vec![command(CommandAction::TurnOn, 0, 0, 1000, 0)]), None);
    assert_eq!(run_commands(&vec![command(CommandAction::TurnOn, -1, 0, 5, 5)]), None);
    assert_eq!(run_commands(&vec![command(CommandAction::Toggle, 0, 0, 5, i64::MAX)]), None);
    assert_eq!(run_commands(&vec![command(CommandAction::Toggle, 0, 0, 999, 999)]), Some((1000000, 2000000)));
}

use vole::date::Date;
use vole::learn::{assessments, next_step, yes_or_quit, LoopOption, Step, UserAction};
use vole::prompt::{option_help, Command, ParsingResult};
use vole::qa::Qa;
use vole::card::Card;

#[test]
fn prompt_lists_letters_and_help() {
    let options = yes_or_quit(UserAction::Continue);
    let command = Command::new("Show answer", &options);
    assert_eq!(command.prompt(), "Show answer [y, q, ?]? ");
    assert_eq!(command.help(), "y - yes\nq - quit\n? - help\n");
    assert_eq!(option_help('x', "doc"), "x - doc\n");
}

#[test]
fn parse_picks_option_help_or_nothing() {
    let options = yes_or_quit(UserAction::AddMore);
    let command = Command::new("More", &options);
    match command.parse(" y\n") {
        ParsingResult::Chosen(option) => assert_eq!(option.action, UserAction::AddMore),
        _ => panic!("expected an option"),
    }
    match command.parse("q") {
        ParsingResult::Chosen(option) => assert_eq!(option.action, UserAction::Quit),
        _ => panic!("expected an option"),
    }
    assert!(matches!(command.parse("?\n"), ParsingResult::Help));
    assert!(matches!(command.parse("x\n"), ParsingResult::Unknown));
    assert!(matches!(command.parse("yy\n"), ParsingResult::Unknown));
    assert!(matches!(command.parse("\n"), ParsingResult::Unknown));
}

#[test]
fn ratings_are_picked_by_digit() {
    let ratings = assessments();
    let command = Command::new("How difficult was it", &ratings);
    assert_eq!(command.prompt(), "How difficult was it [0, 1, 2, 3, 4, 5, ?]? ");
    match command.parse("3\n") {
        ParsingResult::Chosen(option) => assert_eq!(option.q, 3),
        _ => panic!("expected a rating"),
    }
}

#[test]
fn next_step_follows_the_session() {
    let today = Date::from_ymd(2024, 3, 15).unwrap();
    let card = Card::new(1, String::from("q"), String::from("a"));
    let mut qa = Qa::load(vec![card], None, today).unwrap();
    assert_eq!(next_step(&qa), Step::AskForMore);
    qa.schedule_more(8, today);
    assert_eq!(next_step(&qa), Step::ShowCard);
    qa.assess_current(5, today).unwrap();
    assert_eq!(next_step(&qa), Step::Finish);
}

#[test]
fn parse_takes_one_ascii_character_only() {
    let options = vec![LoopOption {
        letter: 'é',
        doc: String::from("accented"),
        action: UserAction::Continue,
    }];
    let command = Command::new("Pick", &options);
    assert!(matches!(command.parse("é\n"), ParsingResult::Unknown));
}

use vole::card::Card;
use vole::word::Word;

#[test]
fn test_parse_id() {
    assert_eq![
        Card::parse_id("B000000000000001").unwrap(),
        12682136550675316737
    ];
    assert_eq![
        Card::parse_id("b000000000000001").unwrap(),
        12682136550675316737
    ];
    assert_eq![
        Card::parse_id("xxx").err().unwrap(),
        String::from("Failed to parse card ID: invalid digit found in string")
    ];
}

#[test]
fn test_serialize_id() {
    assert_eq![Card::serialize_id(49154), String::from("000000000000c002")];
}

#[test]
fn test_card() {
    let card = Card::new(123, String::from("What?"), String::from("Something!"));
    assert_eq!(card.id(), 123);
    assert_eq!(card.question(), "What?");
    assert_eq!(card.answer(), "Something!");
}

#[test]
fn parse_id_reports_empty_and_overflow() {
    assert_eq!(
        Card::parse_id("").err().unwrap(),
        "Failed to parse card ID: cannot parse integer from empty string"
    );
    assert_eq!(
        Card::parse_id("10000000000000000").err().unwrap(),
        "Failed to parse card ID: number too large to fit in target type"
    );
    assert_eq!(Card::parse_id("ffffffffffffffff").unwrap(), u64::MAX);
    assert_eq!(Card::parse_id("+1f").unwrap(), 31);
    assert_eq!(
        Card::parse_id("+").err().unwrap(),
        "Failed to parse card ID: invalid digit found in string"
    );
}

#[test]
fn serialize_id_round_trips() {
    for id in [0u64, 1, 255, 0xdead_beef, u64::MAX] {
        assert_eq!(Card::parse_id(&Card::serialize_id(id)).unwrap(), id);
    }
    assert_eq!(Card::serialize_id(u64::MAX), "ffffffffffffffff");
}

#[test]
fn card_line_round_trip() {
    let card = Card::new(49154, String::from("What?"), String::from("Something!"));
    let line = card.to_line();
    assert_eq!(line, "000000000000c002\tWhat?\tSomething!\n");
    let back = Card::from_line(&line).unwrap();
    assert_eq!(back.id(), 49154);
    assert_eq!(back.question(), "What?");
    assert_eq!(back.answer(), "Something!");
}

#[test]
fn card_from_line_errors() {
    assert_eq!(
        Card::from_line("0001\tonly two\n").err().unwrap(),
        "Expected three TAB separated tokens, got: 0001\tonly two\n"
    );
    assert_eq!(
        Card::from_line("zz\tq\ta\n").err().unwrap(),
        "Failed to parse card ID: invalid digit found in string"
    );
}

#[test]
fn card_from_line_trims_white_space() {
    let card = Card::from_line("  00000000000000ff\tčeština\tanswer \r\n").unwrap();
    assert_eq!(card.id(), 255);
    assert_eq!(card.question(), "čeština");
    assert_eq!(card.answer(), "answer");
}

#[test]
fn word_round_trip() {
    let word = Word::new(String::from("dog"), String::from("pes"));
    assert_eq!(word.variants(), ("dog", "pes"));
    let line = word.serialize();
    assert_eq!(line, "dog\tpes\n");
    let back = Word::deserialize("dog\tpes").unwrap();
    assert_eq!(back.variants(), ("dog", "pes"));
    assert_eq!(
        Word::deserialize("a\tb\tc").err().unwrap(),
        "Invalid number of TAB separated tokens."
    );
    assert_eq!(
        Word::deserialize("single").err().unwrap(),
        "Invalid number of TAB separated tokens."
    );
}

#[test]
fn card_file_text_reads_each_line() {
    let cards = vole::card::read_cards_text("0000000000000001\tq1\ta1\n0000000000000002\tq2\ta2\n").unwrap();
    assert_eq!(cards.len(), 2);
    assert_eq!(cards[1].id(), 2);
    assert_eq!(cards[1].answer(), "a2");
    assert!(vole::card::read_cards_text("").unwrap().is_empty());
    assert_eq!(
        vole::card::read_cards_text("0000000000000001\tq1\ta1\nbroken\n").err().unwrap(),
        "Error on line 2: Expected three TAB separated tokens, got: broken"
    );
}

#[test]
fn new_cards_are_numbered_after_the_last() {
    let cards = vole::card::number_cards(
        41,
        vec![
            (String::from("dog"), String::from("pes")),
            (String::from("pes"), String::from("dog")),
        ],
    )
    .unwrap();
    assert_eq!(cards.len(), 2);
    assert_eq!(cards[0].id(), 42);
    assert_eq!(cards[1].id(), 43);
    assert_eq!(cards[1].question(), "pes");
    assert!(vole::card::number_cards(u64::MAX, vec![(String::from("q"), String::from("a"))]).is_none());
}

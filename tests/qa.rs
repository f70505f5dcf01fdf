use vole::card::Card;
use vole::date::Date;
use vole::qa::Qa;

fn date(y: u32, m: u32, d: u32) -> Date {
    Date::from_ymd(y, m, d).unwrap()
}

fn card(id: u64) -> Card {
    Card::new(id, format!("q{}", id), format!("a{}", id))
}

#[test]
fn new_cards_wait_until_pulled() {
    let today = date(2024, 3, 15);
    let mut qa = Qa::load(vec![card(1), card(2), card(3)], None, today).unwrap();
    assert!(qa.is_today_schedule_done());
    assert!(!qa.is_all_scheduled());
    qa.schedule_more(2, today);
    assert!(!qa.is_today_schedule_done());
    assert_eq!(qa.current_card().unwrap().id(), 1);
    qa.assess_current(5, today).unwrap();
    assert_eq!(qa.current_card().unwrap().question(), "q2");
    qa.assess_current(4, today).unwrap();
    assert!(qa.is_today_schedule_done());
    qa.schedule_more(8, today);
    assert!(qa.is_all_scheduled());
    assert_eq!(qa.current_card().unwrap().answer(), "a3");
    qa.assess_current(5, today).unwrap();
    assert!(qa.is_today_schedule_done());
    qa.schedule_more(8, today);
    assert!(qa.is_today_schedule_done());
    let saved = qa.save();
    assert_eq!(saved.lines().count(), 3);
}

#[test]
fn scheduled_cards_come_from_the_file() {
    let today = date(2024, 3, 15);
    let text = "0000000000000002\t2024-03-15\t2024-03-14\t1\t2.5\n\
                0000000000000009\t2024-03-01\t2024-02-20\t1\t2.5\n";
    let qa = Qa::load(vec![card(1), card(2)], Some(text), today).unwrap();
    assert!(!qa.is_all_scheduled());
    assert_eq!(qa.schedule().hot(), vec![2, 9]);
    assert_eq!(qa.current_card().unwrap().id(), 2);
}

#[test]
fn item_without_card_has_no_current_card() {
    let today = date(2024, 3, 15);
    let text = "0000000000000009\t2024-03-01\t2024-02-20\t1\t2.5\n";
    let qa = Qa::load(vec![card(1)], Some(text), today).unwrap();
    assert!(qa.current_card().is_none());
}

#[test]
fn broken_schedule_fails_the_session() {
    let today = date(2024, 3, 15);
    let e = Qa::load(vec![card(1)], Some("garbage\n"), today).err().unwrap();
    assert_eq!(e.line, 1);
}

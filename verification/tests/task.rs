use altr::casing::Casing;
use altr::error::Error;
use altr::record::{Record, Records};
use altr::task::Task;

fn assert_expected(candidate: &str, rename: &str, input: &str, expected: &str) {
    let mut task = Task::build(candidate, rename, input).unwrap();

    let mut records = task.generate_records();
    let result = task.process_records(&mut records);

    assert_eq!(result, expected, "Result: {}", result);
}

#[test]
fn test_1() {
    let candidate = "user";
    let rename = "supplyUser";

    let input = r"user User USER";
    let expected = r"supplyUser SupplyUser SUPPLY_USER";

    assert_expected(candidate, rename, input, expected);
}

#[test]
fn test_2() {
    let candidate = "user";
    let rename = "dayTrader";

    let input = r#"
                const [user, setUser] = useState("");

                function getUserName() {
                    return user.name;
                }
                
                function setUserName(name: IUserName) {
                    // could also have been USER
                    user.name = name;
                }
        "#;

    let expected = r#"
                const [dayTrader, setDayTrader] = useState("");

                function getDayTraderName() {
                    return dayTrader.name;
                }
                
                function setDayTraderName(name: IDayTraderName) {
                    // could also have been DAY_TRADER
                    dayTrader.name = name;
                }
        "#;

    assert_expected(candidate, rename, input, expected);

    // testing reversal
    assert_expected(rename, candidate, expected, input);
}

#[test]
fn test_3() {
    let candidate = "oldUser";
    let rename = "myNewUser";

    let input = r"
            camel: oldUser
            pascal: OldUser
            snake: old_user
            lower: olduser
            upper: OLDUSER
            noop: Olduser
            kebab: old-user
            upperkebab: OLD-USER
            uppersnake: OLD_USER
        ";
    let expected = r"
            camel: myNewUser
            pascal: MyNewUser
            snake: my_new_user
            lower: olduser
            upper: OLDUSER
            noop: Olduser
            kebab: my-new-user
            upperkebab: MY-NEW-USER
            uppersnake: MY_NEW_USER
        ";

    assert_expected(candidate, rename, input, expected);
}

#[test]
fn test_preferred_casing() {
    assert_expected(
        "result",
        "parsedTransaction",
        "result | Result | RESULT | rEsult",
        "parsedTransaction | ParsedTransaction | PARSED_TRANSACTION | rEsult",
    );

    assert_expected(
        "result",
        "parsed-transaction",
        "result | Result | RESULT | rEsult",
        "parsed-transaction | ParsedTransaction | PARSED-TRANSACTION | rEsult",
    );

    assert_expected(
        "result",
        "parsed_transaction",
        "result | Result | RESULT | rEsult",
        "parsed_transaction | ParsedTransaction | PARSED_TRANSACTION | rEsult",
    );
}

fn found(candidate: &str, rename: &str, input: &str) -> Vec<(usize, usize, Casing)> {
    let mut task = Task::build(candidate, rename, input).unwrap();
    task.generate_records()
        .entries()
        .iter()
        .map(|r| (r.pos, r.len, r.casing))
        .collect()
}

fn rewritten(candidate: &str, rename: &str, input: &str) -> Option<String> {
    Task::build(candidate, rename, input).unwrap().rewrite()
}

#[test]
fn processing_twice_restores_the_text() {
    assert_expected(
        "user",
        "supplyUser",
        "user User USER",
        "supplyUser SupplyUser SUPPLY_USER",
    );
    assert_expected(
        "supplyUser",
        "user",
        "supplyUser SupplyUser SUPPLY_USER",
        "user User USER",
    );
}

#[test]
fn build_reports_the_candidate_first() {
    match Task::build("in-Va_lid", "123", "text") {
        Err(Error::CandidateCasing(s)) => assert_eq!(s, "in-Va_lid"),
        other => panic!("unexpected: {:?}", other),
    }
    match Task::build("user", "123", "text") {
        Err(Error::RenameCasing(s)) => assert_eq!(s, "123"),
        other => panic!("unexpected: {:?}", other),
    }
    match Task::build("", "account", "text") {
        Err(Error::CandidateCasing(s)) => assert_eq!(s, ""),
        other => panic!("unexpected: {:?}", other),
    }
    assert!(Task::build("user", "account", "").is_ok());
}

#[test]
fn records_hold_positions_in_the_whole_text() {
    assert_eq!(
        found("user", "account", "user User USER"),
        vec![
            (0, 4, Casing::Lower),
            (5, 4, Casing::Pascal),
            (10, 4, Casing::Upper),
        ]
    );
    assert_eq!(
        found("oldUser", "x", "a\nOldUser old_user\n\nold-user OLD_USER oldUser"),
        vec![
            (2, 7, Casing::Pascal),
            (10, 8, Casing::Snake),
            (20, 8, Casing::Kebab),
            (29, 8, Casing::UpperSnake),
            (38, 7, Casing::Camel),
        ]
    );
}

#[test]
fn several_words_never_match_a_flat_run() {
    assert_eq!(found("oldUser", "x", "olduser OLDUSER Olduser"), vec![]);
}

#[test]
fn matches_of_one_form_do_not_overlap() {
    assert_eq!(
        found("aa", "b", "aaaaa"),
        vec![(0, 2, Casing::Lower), (2, 2, Casing::Lower)]
    );
    assert_eq!(rewritten("aa", "b", "aaaaa").unwrap(), "bba");
}

#[test]
fn positions_count_bytes() {
    assert_eq!(
        found("user", "x", "\u{e9}\u{e9} user\n\u{4e16} User"),
        vec![(5, 4, Casing::Lower), (14, 4, Casing::Pascal)]
    );
    assert_eq!(
        rewritten("user", "account", "\u{e9}\u{e9} user\n\u{4e16} User").unwrap(),
        "\u{e9}\u{e9} account\n\u{4e16} Account"
    );
}

#[test]
fn identifiers_beyond_ascii_are_found_and_replaced() {
    assert_eq!(
        rewritten("gr\u{f6}\u{df}e", "size", "gr\u{f6}\u{df}e = 1; Gr\u{f6}\u{df}e").unwrap(),
        "size = 1; Size"
    );
    assert_eq!(
        rewritten("size", "gr\u{f6}\u{df}eWert", "size SIZE size").unwrap(),
        "gr\u{f6}\u{df}eWert GR\u{f6}\u{df}E_WERT gr\u{f6}\u{df}eWert"
    );
}

#[test]
fn positions_are_true_after_carriage_returns() {
    assert_eq!(
        found("user", "x", "user\r\nuser\r\nuser"),
        vec![
            (0, 4, Casing::Lower),
            (6, 4, Casing::Lower),
            (12, 4, Casing::Lower),
        ]
    );
    assert_eq!(
        found("user", "x", "ab\rc user\nuser\r"),
        vec![(5, 4, Casing::Lower), (10, 4, Casing::Lower)]
    );
    assert_eq!(
        rewritten("user", "account", "user\r\nUser\r\n\r\nUSER\r\n").unwrap(),
        "account\r\nAccount\r\n\r\nACCOUNT\r\n"
    );
    assert_eq!(
        rewritten("user", "x", "\u{e9}\r\n\u{e9}user\r\nuser").unwrap(),
        "\u{e9}\r\n\u{e9}x\r\nx"
    );
}

#[test]
fn a_carriage_return_before_a_line_feed_is_no_part_of_the_line() {
    assert_eq!(
        found("_", "x", "a\r\nb\r"),
        vec![
            (0, 0, Casing::Pascal),
            (1, 0, Casing::Pascal),
            (3, 0, Casing::Pascal),
            (4, 0, Casing::Pascal),
            (5, 0, Casing::Pascal),
        ]
    );
}

#[test]
fn the_last_line_needs_no_line_feed() {
    assert_eq!(found("user", "x", "user\n"), vec![(0, 4, Casing::Lower)]);
    assert_eq!(found("user", "x", "\nuser"), vec![(1, 4, Casing::Lower)]);
    assert_eq!(found("user", "x", ""), vec![]);
    assert_eq!(found("user", "x", "\n\n\n"), vec![]);
}

#[test]
fn an_occurrence_does_not_span_lines() {
    assert_eq!(found("old_user", "x", "old_\nuser"), vec![]);
    assert_eq!(rewritten("old_user", "x", "old_\nuser").unwrap(), "old_\nuser");
}

#[test]
fn the_earlier_convention_tags_a_shared_form() {
    assert_eq!(found("user", "x", "user"), vec![(0, 4, Casing::Lower)]);
    assert_eq!(found("USER", "x", "USER"), vec![(0, 4, Casing::Upper)]);
    assert_eq!(found("USER", "x", "user"), vec![(0, 4, Casing::Lower)]);
    assert_eq!(found("A_B", "x", "a_b A_B"), vec![
        (0, 3, Casing::Snake),
        (4, 3, Casing::UpperSnake),
    ]);
}

#[test]
fn an_upper_candidate_is_found_in_every_case() {
    assert_eq!(
        rewritten("USER", "ACCOUNT", "user User USER").unwrap(),
        "account Account ACCOUNT"
    );
}

#[test]
fn the_empty_form_stands_at_every_character() {
    assert_eq!(
        found("_", "x", "a\u{e9}\nb"),
        vec![
            (0, 0, Casing::Pascal),
            (1, 0, Casing::Pascal),
            (3, 0, Casing::Pascal),
            (4, 0, Casing::Pascal),
            (5, 0, Casing::Pascal),
        ]
    );
    assert_eq!(rewritten("_", "x", "a\u{e9}\nb").unwrap(), "XaX\u{e9}X\nXbX");
    assert_eq!(rewritten("_", "x", "a_b").unwrap(), "XaX_XbX");
}

#[test]
fn third_replacement_follows_net_growth() {
    let input = "aBC|a_b_c|a-b-c|";
    assert_eq!(
        found("aBC", "wxyz", input),
        vec![
            (0, 3, Casing::Camel),
            (4, 5, Casing::Snake),
            (10, 5, Casing::Kebab),
        ]
    );
    let output = rewritten("aBC", "wxyz", input).unwrap();
    assert_eq!(output, "wxyz|wxyz|wxyz|");
    assert_eq!(&output[10..14], "wxyz");
}

#[test]
fn shrinking_first_then_growing() {
    assert_eq!(
        rewritten("a_b_c", "wxyz", "A_B_C a-b-c ABC aBC.").unwrap(),
        "WXYZ wxyz Wxyz wxyz."
    );
    assert_eq!(
        rewritten("id", "recordNumber", "id-ID:Id;id").unwrap(),
        "recordNumber-RECORD_NUMBER:RecordNumber;recordNumber"
    );
    assert_eq!(
        rewritten("recordNumber", "id", "recordNumber-RECORD_NUMBER:RecordNumber;record-number")
            .unwrap(),
        "id-ID:Id;id"
    );
}

#[test]
fn replacement_falls_back_as_the_rename_was_written() {
    let text = "";
    let task = Task::build("x", "parsed-transaction", text).unwrap();
    assert_eq!(task.replacement(&Casing::Lower), "parsed-transaction");
    assert_eq!(task.replacement(&Casing::Upper), "PARSED-TRANSACTION");
    assert_eq!(task.replacement(&Casing::Snake), "parsed_transaction");
    let task = Task::build("x", "parsed_transaction", text).unwrap();
    assert_eq!(task.replacement(&Casing::Lower), "parsed_transaction");
    assert_eq!(task.replacement(&Casing::Upper), "PARSED_TRANSACTION");
    let task = Task::build("x", "ParsedTransaction", text).unwrap();
    assert_eq!(task.replacement(&Casing::Lower), "parsedTransaction");
    assert_eq!(task.replacement(&Casing::Upper), "PARSED_TRANSACTION");
    assert_eq!(task.replacement(&Casing::Kebab), "parsed-transaction");
    let task = Task::build("x", "PARSED-TRANSACTION", text).unwrap();
    assert_eq!(task.replacement(&Casing::Lower), "parsed-transaction");
    assert_eq!(task.replacement(&Casing::Camel), "parsedTransaction");
    let task = Task::build("x", "amount", text).unwrap();
    assert_eq!(task.replacement(&Casing::Lower), "amount");
    assert_eq!(task.replacement(&Casing::Upper), "AMOUNT");
}

#[test]
fn overlapping_occurrences_are_not_rewritten() {
    assert_eq!(
        found("aA", "b", "aAA"),
        vec![(0, 2, Casing::Camel), (1, 2, Casing::Pascal)]
    );
    let mut task = Task::build("aA", "b", "aAA").unwrap();
    let records = task.generate_records();
    assert!(!task.can_process(&records));
    assert_eq!(task.rewrite(), None);
}

#[test]
fn records_outside_the_text_are_turned_away() {
    let task = Task::build("user", "x", "a\u{e9}b user").unwrap();
    let mut records = Records::new();
    assert!(task.can_process(&records));
    records.try_insert(5, 4, Casing::Lower).unwrap();
    assert!(task.can_process(&records));
    records.try_insert(9, 1, Casing::Lower).unwrap();
    assert!(!task.can_process(&records));

    let mut inside = Records::new();
    inside.try_insert(2, 1, Casing::Lower).unwrap();
    assert!(!task.can_process(&inside));
    let mut ending_inside = Records::new();
    ending_inside.try_insert(0, 2, Casing::Lower).unwrap();
    assert!(!task.can_process(&ending_inside));
    let mut whole = Records::new();
    whole.try_insert(1, 2, Casing::Lower).unwrap();
    assert!(task.can_process(&whole));

    let mut misfiled = Records::new();
    misfiled.map.insert(
        0,
        Record {
            pos: 5,
            len: 4,
            casing: Casing::Lower,
        },
    );
    misfiled.map.insert(
        1,
        Record {
            pos: 0,
            len: 1,
            casing: Casing::Lower,
        },
    );
    assert!(!task.can_process(&misfiled));
}

#[test]
fn records_given_by_hand_are_replaced_where_they_point() {
    let mut task = Task::build("user", "fullName", "0123456789").unwrap();
    let mut records = Records::new();
    records.try_insert(8, 2, Casing::Snake).unwrap();
    records.try_insert(2, 3, Casing::Upper).unwrap();
    records.try_insert(5, 0, Casing::Pascal).unwrap();
    assert!(task.can_process(&records));
    assert_eq!(
        task.process_records(&mut records),
        "01FULL_NAMEFullName567full_name"
    );
    assert_eq!(records.map.len(), 3);
}

#[test]
fn nothing_found_leaves_the_text() {
    assert_eq!(
        rewritten("user", "account", "no match\r\nhere\n").unwrap(),
        "no match\r\nhere\n"
    );
    assert_eq!(rewritten("user", "account", "").unwrap(), "");
}

use scoresheets::batch::{output_file_path, process_group, process_player_groups, process_roster, BatchError};
use scoresheets::engine::{replace_svg, SubstitutionError};
use scoresheets::group::group_records;
use scoresheets::record::Record;
use scoresheets::roster::{detect_form, keyed_records, load_keyed, load_positional, split_chars, RosterError, RosterForm};
use scoresheets::text::{chars_of, decimal_chars, replace_chars, string_of};

fn keyed(pairs: &[(&str, &str)]) -> Record {
    Record::Keyed {
        fields: pairs.iter().map(|(k, v)| (k.to_string(), v.to_string())).collect(),
    }
}

fn positional(names: &[&str]) -> Record {
    Record::Positional { names: names.iter().map(|n| n.to_string()).collect() }
}

fn chars(s: &str) -> Vec<char> {
    s.chars().collect()
}

#[test]
fn positional_roster_fills_one_sheet() {
    let records = load_positional("player1,player2,player3,player4\nAlice,Bob,Carol,Dave\n").unwrap();
    assert_eq!(records.len(), 1);
    let outs = process_player_groups(
        records,
        ">PLAYER1<>PLAYER2<>PLAYER3<>PLAYER4<NAME",
        "Spring Cup",
        "base",
    )
    .unwrap();
    assert_eq!(outs.len(), 1);
    assert_eq!(outs[0].document, ">Alice<>Bob<>Carol<>Dave<Spring Cup");
    assert_eq!(outs[0].path, "base_0.pdf");
}

#[test]
fn header_only_roster_gives_no_outputs() {
    let records = load_positional("player1,player2,player3,player4\n").unwrap();
    assert!(records.is_empty());
    let outs = process_player_groups(records, ">PLAYER1<NAME", "Cup", "base").unwrap();
    assert!(outs.is_empty());
    let keyed_records = load_keyed("Player1,Player2,Player3,Player4\n").unwrap();
    assert!(keyed_records.is_empty());
}

#[test]
fn blank_keyed_field_keeps_placeholder() {
    let records = load_keyed("Player1,Player2,Player3,Player4\nAnn,,Cid,Dee\n").unwrap();
    let out = replace_svg(">PLAYER1<|>PLAYER2<|>PLAYER3<|>PLAYER4<", &records, "T", 0).unwrap();
    assert_eq!(out, ">Ann<|>PLAYER2<|>Cid<|>Dee<");
}

#[test]
fn positional_blank_field_fills_empty_name() {
    let records = vec![positional(&["", "", "", ""])];
    let out = replace_svg(">PLAYER1<>PLAYER4<", &records, "T", 0).unwrap();
    assert_eq!(out, "><><");
}

#[test]
fn grouper_sizes_and_order() {
    let groups = group_records((0..10).collect::<Vec<u32>>());
    assert_eq!(groups, vec![vec![0, 1, 2, 3], vec![4, 5, 6, 7], vec![8, 9]]);
    let groups = group_records((0..8).collect::<Vec<u32>>());
    assert_eq!(groups, vec![vec![0, 1, 2, 3], vec![4, 5, 6, 7]]);
    let groups = group_records(vec![7u32]);
    assert_eq!(groups, vec![vec![7]]);
    let groups = group_records(Vec::<u32>::new());
    assert!(groups.is_empty());
}

#[test]
fn unmatched_template_changes_only_name() {
    let records = vec![positional(&["A", "B", "C", "D"])];
    let template = "<svg><text>>PLAYER5<</text><text>NAME and NAME</text></svg>";
    let out = replace_svg(template, &records, "Open", 0).unwrap();
    assert_eq!(out, "<svg><text>>PLAYER5<</text><text>Open and Open</text></svg>");
}

#[test]
fn tokens_do_not_match_inside_longer_numbers() {
    let records = vec![positional(&["A", "B", "C", "D"])];
    let out = replace_svg(">PLAYER1<>PLAYER10<>PLAYER2<>PLAYER12<", &records, "T", 0).unwrap();
    assert_eq!(out, ">A<>PLAYER10<>B<>PLAYER12<");
}

#[test]
fn every_occurrence_is_replaced() {
    let records = vec![positional(&["A", "B", "C", "D"])];
    let out = replace_svg(">PLAYER3<x>PLAYER3<", &records, "T", 0).unwrap();
    assert_eq!(out, ">C<x>C<");
}

#[test]
fn later_records_use_later_numbers() {
    let records = vec![
        positional(&["A", "B", "C", "D"]),
        positional(&["E", "F", "G", "H"]),
    ];
    let out = replace_svg(">PLAYER4<>PLAYER5<>PLAYER8<", &records, "T", 0).unwrap();
    assert_eq!(out, ">D<>E<>H<");
}

#[test]
fn pair_labels_follow_slots_one_and_three() {
    let records = vec![
        keyed(&[("Player1", "A"), ("Player3", "C"), ("Pair No1", "P1"), ("Pair No2", "P2")]),
        keyed(&[("Player1", "E"), ("Pair No1", "Q1"), ("Pair No2", "Q2")]),
    ];
    let out = replace_svg(">Pair No1<>Pair No2<>Pair No3<>Pair No4<", &records, "T", 0).unwrap();
    assert_eq!(out, ">P1<>P2<>Q1<>Pair No4<");
}

#[test]
fn runs_are_deterministic() {
    let text = "Player1,Player2,Player3,Player4\na,b,c,d\ne,f,g,h\ni,j,k,l\nm,n,o,p\nq,r,s,t\n";
    let template = ">PLAYER1<>PLAYER5<>PLAYER13<>PLAYER17<NAME";
    let first = process_player_groups(load_keyed(text).unwrap(), template, "Cup", "out").unwrap();
    let second = process_player_groups(load_keyed(text).unwrap(), template, "Cup", "out").unwrap();
    assert_eq!(first.len(), 2);
    for (a, b) in first.iter().zip(second.iter()) {
        assert_eq!(a.path, b.path);
        assert_eq!(a.document, b.document);
    }
    assert_eq!(first[0].document, ">a<>e<>m<>PLAYER17<Cup");
    assert_eq!(first[1].document, ">PLAYER1<>PLAYER5<>PLAYER13<>q<Cup");
}

#[test]
fn output_paths_are_distinct_per_group() {
    let records: Vec<Record> = (0..9).map(|_| positional(&["x"])).collect();
    let outs = process_player_groups(records, "t", "n", "dir/sheet").unwrap();
    let paths: Vec<&str> = outs.iter().map(|o| o.path.as_str()).collect();
    assert_eq!(paths, vec!["dir/sheet_0.pdf", "dir/sheet_1.pdf", "dir/sheet_2.pdf"]);
    assert_eq!(output_file_path("b", 12), "b_12.pdf");
}

#[test]
fn empty_group_is_refused() {
    assert_eq!(replace_svg("NAME", &[], "T", 0), Err(SubstitutionError::EmptyGroup));
    assert_eq!(replace_svg("NAME", &[keyed(&[])], "T", 0), Err(SubstitutionError::EmptyGroup));
    assert!(process_group("NAME", &[], "T", "o", 0).is_err());
    assert!(process_player_groups(vec![keyed(&[])], "NAME", "T", "o").is_err());
}

#[test]
fn process_group_names_output_by_index() {
    let out = process_group("NAME>PLAYER114<>PLAYER2<", &[positional(&["A", "B"])], "Cup", "o", 7).unwrap();
    assert_eq!(out.path, "o_7.pdf");
    assert_eq!(out.document, "Cup>B<>PLAYER2<");
}

#[test]
fn positional_header_is_checked() {
    assert_eq!(load_positional("").err(), Some(RosterError::InvalidHeader));
    assert_eq!(load_positional("Player1,Player2,Player3,Player4\nA,B,C,D\n").err(), Some(RosterError::InvalidHeader));
    let records = load_positional("player1,player2,player3,player4\r\nA,B\r\nC,D,E,F,G").unwrap();
    assert_eq!(records.len(), 2);
    match &records[0] {
        Record::Positional { names } => assert_eq!(names, &vec!["A".to_string(), "B".to_string()]),
        _ => panic!("expected a positional record"),
    }
    match &records[1] {
        Record::Positional { names } => assert_eq!(names.len(), 5),
        _ => panic!("expected a positional record"),
    }
}

#[test]
fn keyed_row_of_wrong_length_is_refused() {
    let r = load_keyed("Player1,Player2\na,b\nc\n");
    assert_eq!(r.err(), Some(RosterError::MalformedInput { record: 1 }));
}

#[test]
fn keyed_rows_pair_header_names() {
    let records = load_keyed("Player1,Pair No1\n\"Smith, J\",7\n").unwrap();
    assert_eq!(records.len(), 1);
    match &records[0] {
        Record::Keyed { fields } => {
            assert_eq!(fields[0], ("Player1".to_string(), "Smith, J".to_string()));
            assert_eq!(fields[1], ("Pair No1".to_string(), "7".to_string()));
        }
        _ => panic!("expected a keyed record"),
    }
    let out = replace_svg(">PLAYER1< >Pair No1<", &records, "T", 0).unwrap();
    assert_eq!(out, ">Smith, J< >7<");
}

#[test]
fn text_helpers() {
    assert_eq!(decimal_chars(0), chars("0"));
    assert_eq!(decimal_chars(4096), chars("4096"));
    assert_eq!(replace_chars(&chars("abcabc"), &chars("bc"), &chars("X")), chars("aXaX"));
    assert_eq!(replace_chars(&chars("aaa"), &chars("aa"), &chars("b")), chars("ba"));
    assert_eq!(split_chars(&chars("a,,b"), ','), vec![chars("a"), chars(""), chars("b")]);
    assert_eq!(split_chars(&chars(""), ','), vec![chars("")]);
    assert_eq!(chars_of("héllo"), chars("héllo"));
    assert_eq!(string_of(&chars("héllo")), "héllo");
}

#[test]
fn inserted_values_are_not_substituted_again() {
    let records = vec![keyed(&[("Player1", "PLAYER2"), ("Player2", "B")])];
    let out = replace_svg(">PLAYER1<", &records, "T", 0).unwrap();
    assert_eq!(out, ">PLAYER2<");
    let records = vec![positional(&[">PLAYER2<", "B", "C", "D"])];
    let out = replace_svg(">PLAYER1<|>PLAYER2<", &records, "T", 0).unwrap();
    assert_eq!(out, ">>PLAYER2<<|>B<");
}

#[test]
fn numbering_runs_across_groups() {
    let records = vec![positional(&["A", "B", "C", "D"]), positional(&["E", "F", "G", "H"])];
    let out = replace_svg(">PLAYER1<>PLAYER17<>PLAYER21<>PLAYER24<", &records, "T", 1).unwrap();
    assert_eq!(out, ">PLAYER1<>A<>E<>H<");
    let records = vec![keyed(&[("Player1", "A"), ("Player3", "C"), ("Pair No1", "P"), ("Pair No2", "Q")])];
    let out = replace_svg(">Pair No1<>Pair No9<>Pair No10<", &records, "T", 1).unwrap();
    assert_eq!(out, ">Pair No1<>P<>Q<");
}

#[test]
fn last_of_repeated_keys_wins() {
    let records = vec![keyed(&[("Player1", "first"), ("Player1", "last")])];
    assert_eq!(replace_svg(">PLAYER1<", &records, "T", 0).unwrap(), ">last<");
}

#[test]
fn roster_runs_positional_and_keyed() {
    let text = "player1,player2,player3,player4\nAlice,Bob,Carol,Dave\n";
    assert_eq!(detect_form(text), RosterForm::Positional);
    let outs = process_roster(
        text,
        RosterForm::Positional,
        ">PLAYER1<>PLAYER2<>PLAYER3<>PLAYER4<NAME",
        "Spring Cup",
        "base",
    )
    .unwrap();
    assert_eq!(outs.len(), 1);
    assert_eq!(outs[0].document, ">Alice<>Bob<>Carol<>Dave<Spring Cup");
    assert_eq!(outs[0].path, "base_0.pdf");
    let keyed_text = "Player1,Player2\nA,B\n";
    assert_eq!(detect_form(keyed_text), RosterForm::Keyed);
    let outs = process_roster(keyed_text, RosterForm::Keyed, ">PLAYER2<", "T", "b").unwrap();
    assert_eq!(outs[0].document, ">B<");
}

#[test]
fn roster_errors_stop_the_run() {
    let r = process_roster("Player1,Player2\na,b\nc\n", RosterForm::Keyed, "t", "n", "b");
    assert_eq!(r.err(), Some(BatchError::Roster(RosterError::MalformedInput { record: 1 })));
    let r = process_roster("names\nA,B,C,D\n", RosterForm::Positional, "t", "n", "b");
    assert_eq!(r.err(), Some(BatchError::Roster(RosterError::InvalidHeader)));
    let r = process_roster("Player1\n", RosterForm::Keyed, "t", "n", "b").unwrap();
    assert!(r.is_empty());
}

#[test]
fn blank_pair_label_fills_empty_brackets() {
    let records = vec![keyed(&[("Player1", "A"), ("Pair No1", "")])];
    let out = replace_svg(">PLAYER1<|>Pair No1<", &records, "T", 0).unwrap();
    assert_eq!(out, ">A<|><");
    let records = load_keyed("Player1,Player2,Pair No1\nA,,\n").unwrap();
    let out = replace_svg(">PLAYER1<|>PLAYER2<|>Pair No1<", &records, "T", 0).unwrap();
    assert_eq!(out, ">A<|>PLAYER2<|><");
}

#[test]
fn keyed_records_from_given_rows() {
    let row = |fields: &[&str]| fields.iter().map(|f| f.to_string()).collect::<Vec<String>>();
    let rows = vec![row(&["Player1", "Player2"]), row(&["a", "b"]), row(&["c", "d"])];
    let records = keyed_records(&rows).unwrap();
    assert_eq!(records.len(), 2);
    match &records[1] {
        Record::Keyed { fields } => {
            assert_eq!(fields, &vec![
                ("Player1".to_string(), "c".to_string()),
                ("Player2".to_string(), "d".to_string()),
            ]);
        }
        _ => panic!("expected a keyed record"),
    }
    let bad = vec![row(&["Player1", "Player2"]), row(&["a", "b"]), row(&["c"])];
    assert_eq!(keyed_records(&bad).err(), Some(RosterError::MalformedInput { record: 1 }));
    assert!(keyed_records(&Vec::new()).unwrap().is_empty());
}

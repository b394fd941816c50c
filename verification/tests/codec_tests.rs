use learn_game::codec::{parse_qtable, render_qtable};
use learn_game::q_table::QTable;

fn sample_store() -> QTable {
    let mut q = QTable::new();
    q.ensure_entry("X0-------max".to_string(), vec![(0, 2), (1, 0)]);
    q.ensure_entry("---------P".to_string(), vec![(0, 0), (2, 2)]);
    // overwrite the random seeds with fixed values, one of them negative
    q.qtable[0].1.set_value((0, 2), -200_000);
    q.qtable[0].1.set_value((1, 0), 1_000_000);
    q.qtable[1].1.set_value((0, 0), 450_000);
    q.qtable[1].1.set_value((2, 2), 0);
    q
}

#[test]
fn rendered_record_has_the_expected_shape() {
    let q = sample_store();
    let text = render_qtable(&q);
    let expected = "{\"qtable\":{\"X0-------max\":{\"(0, 2)\":-0.200000,\"(1, 0)\":1.000000},\"---------P\":{\"(0, 0)\":0.450000,\"(2, 2)\":0.000000}}}";
    assert_eq!(text, expected);
}

#[test]
fn record_round_trip_reproduces_the_store() {
    let q = sample_store();
    let text = render_qtable(&q);
    let back = parse_qtable(&text).expect("a rendered record reads back");
    assert_eq!(back.len(), q.len());
    for i in 0..q.qtable.len() {
        let key = &q.qtable[i].0;
        let written = &q.qtable[i].1;
        let reread = back.get(key).expect("every key survives the round trip");
        assert_eq!(reread.len(), written.len());
        for j in 0..written.moves.len() {
            let (mv, v) = written.moves[j];
            assert_eq!(reread.get(mv), Some(v));
        }
    }
}

#[test]
fn empty_store_round_trips() {
    let q = QTable::new();
    let text = render_qtable(&q);
    assert_eq!(text, "{\"qtable\":{}}");
    let back = parse_qtable(&text).expect("the empty record reads back");
    assert_eq!(back.len(), 0);
}

#[test]
fn malformed_records_are_refused() {
    // not a record at all
    assert!(parse_qtable("garbage").is_none());
    // a wrong header
    assert!(parse_qtable("{\"qtably\":{}}").is_none());
    // trailing text after the record
    assert!(parse_qtable("{\"qtable\":{}}   ").is_none());
    // a move outside the board
    assert!(parse_qtable("{\"qtable\":{\"---------P\":{\"(7, 0)\":0.100000}}}").is_none());
    // a truncated value
    assert!(parse_qtable("{\"qtable\":{\"---------P\":{\"(0, 0)\":0.1}}}").is_none());
    // a value beyond the bound
    assert!(parse_qtable("{\"qtable\":{\"---------P\":{\"(0, 0)\":500.000000}}}").is_none());
    // a repeated state key
    let repeated_key = "{\"qtable\":{\"---------P\":{\"(0, 0)\":0.100000},\"---------P\":{\"(0, 1)\":0.200000}}}";
    assert!(parse_qtable(repeated_key).is_none());
    // a repeated move inside one table
    assert!(parse_qtable(
        "{\"qtable\":{\"---------P\":{\"(0, 0)\":0.100000,\"(0, 0)\":0.200000}}}"
    )
    .is_none());
}

#[test]
fn parser_accepts_foreign_but_well_formed_records() {
    // a record this library did not render, with unpadded numbers, still
    // reads back exactly
    let text = "{\"qtable\":{\"ab\":{\"(2, 1)\":-3.500000}}}";
    let back = parse_qtable(text).expect("well-formed record");
    assert_eq!(back.len(), 1);
    let m = back.get("ab").expect("key present");
    assert_eq!(m.get((2, 1)), Some(-3_500_000));
}

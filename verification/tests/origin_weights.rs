use tsuitate_bot::origin_weights::OriginWeights;

fn numbers(table: &[Option<String>]) -> Vec<f64> {
    table
        .iter()
        .map(|w| w.as_ref().map_or(1.0, |s| s.parse::<f64>().unwrap()))
        .collect()
}

/// 起点重みのパースは範囲を検査する
#[test]
fn weights_of_origins_are_checked_when_read() {
    let w = OriginWeights::parse("knight:2,line:1,diag:1;d2:4,d3:2").unwrap();
    assert_eq!(numbers(&w.class)[0], 2.0);
    assert_eq!(numbers(&w.dist), [4.0, 2.0, 1.0, 1.0]);
    assert!(OriginWeights::parse("knight:-1").is_none());
    assert!(OriginWeights::parse("knight:0,line:0,diag:0").is_none());
    assert!(OriginWeights::parse("bogus:1").is_none());
    assert!(OriginWeights::parse("").is_some());
}

#[test]
fn a_weight_too_small_to_hold_is_zero() {
    assert!(OriginWeights::parse("knight:1e-999,line:0,diag:0").is_none());
    assert!(OriginWeights::parse("knight:1e-300,line:0,diag:0").is_some());
    assert!(OriginWeights::parse("line:-1e-999").is_some());
    assert!(OriginWeights::parse("line:-1e-300").is_none());
    assert!(OriginWeights::parse("line:1e999").is_some());
}

#[test]
fn the_form_of_weights_is_free_in_its_white_space() {
    let w = OriginWeights::parse(" knight : 2 , , diag:0.5e1 ; d5+ : 3 ,").unwrap();
    assert_eq!(numbers(&w.class), [2.0, 1.0, 5.0]);
    assert_eq!(numbers(&w.dist), [1.0, 1.0, 1.0, 3.0]);
    // The later of two weights for a name counts, so what the first says does not.
    let w = OriginWeights::parse("line:-3,line:4").unwrap();
    assert_eq!(numbers(&w.class), [1.0, 4.0, 1.0]);
    assert!(OriginWeights::parse("line:inf").is_some());
    assert!(OriginWeights::parse("line:-0.0").is_some());
}

#[test]
fn other_forms_of_weights_are_refused() {
    for bad in [
        "knight",
        "knight:",
        "knight:x",
        "knight:nan",
        "knight:-inf",
        "d2:1",
        ";knight:1",
        ";;",
        "knight:1;d2:1;d3:1",
        ";d2:0,d3:0,d4:0,d5+:0",
        "Knight:1",
    ] {
        assert!(OriginWeights::parse(bad).is_none(), "{bad}");
    }
}

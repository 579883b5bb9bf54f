use tsuitate_bot::mate_export::{
    scenario_ending, scenario_heading, score_file, table_line, MateLine, MatePoint, TABLE_HEAD,
};

fn point() -> MatePoint {
    MatePoint {
        game: "g1".to_string(),
        ply: 41,
        danger: true,
        safe: vec!["5i6h".to_string(), "5i4h".to_string(), "P*5h".to_string()],
        played: "2g2f".to_string(),
        kind: Some(("頭金".to_string(), "head_gold".to_string())),
        executed: Some("G*5h".to_string()),
    }
}

#[test]
fn a_decision_gets_a_heading() {
    let text = scenario_heading(&point());
    assert_eq!(
        text,
        "*scenario ply=41 target=5i4h desc=g1 の42手目（詰み経済 P0-3）: 次の相手番の詰め手は頭金・\
         真実上の安全手 3本・実戦は 2g2f・次の相手番で G*5h と詰まされた\n\
         棋戦：arena\n手合割：平手\n先手：先手\n後手：後手\n手数----指手---------消費時間--\n"
    );
    let bare = MatePoint {
        game: "a\nb".to_string(),
        safe: vec![],
        kind: None,
        executed: None,
        ..point()
    };
    let text = scenario_heading(&bare);
    assert!(text.starts_with(
        "*scenario ply=41 target= desc=a b の42手目（詰み経済 P0-3）: 次の相手番の詰め手はなし・\
         真実上の安全手 0本・実戦は 2g2f\n"
    ));
}

#[test]
fn scores_say_how_the_game_ended() {
    assert_eq!(scenario_ending("foul_limit"), Some("反則負け"));
    assert_eq!(scenario_ending("checkmate"), Some("詰み"));
    assert_eq!(scenario_ending("resign"), None);
}

#[test]
fn scores_are_numbered() {
    assert_eq!(score_file("mate", 3), "mate-03.kif");
    assert_eq!(score_file("mate", 12), "mate-12.kif");
    assert_eq!(score_file("mate", 123), "mate-123.kif");
}

#[test]
fn a_line_has_a_field_for_every_column() {
    let line = |usi: &str| MateLine {
        usi: usi.to_string(),
        rank: 2,
        scores: ["1", "2", "0.5", "3", "-4"].map(String::from),
        depth2: true,
        masses: ["0", "0.25", "0.5", "1"].map(String::from),
        truth_legal: true,
        allows_mate: Some(false),
        kind: None,
    };
    let text = table_line(&point(), 7, "2g2f", &line("5i4h"));
    assert_eq!(
        text,
        "g1,42,1,7,5i4h,2,1,2,0.5,3,-4,1,0,0.25,0.5,1,1,0,,head_gold,1,0,0\n"
    );
    let text = table_line(&point(), 7, "2g2f", &line("2g2f"));
    assert!(text.ends_with(",0,1,1\n"));
    assert_eq!(text.matches(',').count(), TABLE_HEAD.matches(',').count());
}

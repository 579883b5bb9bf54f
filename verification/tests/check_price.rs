use tsuitate_bot::board::parse_usi_square;
use tsuitate_bot::check::Hypothesis;
use tsuitate_bot::check_price::{argmax_at, hypothesis_hits, k_star, priced_moves, PricedMove};
use tsuitate_bot::protocol::Role;

/// A number that orders like the given one.
fn key(x: f64) -> i64 {
    let bits = x.to_bits() as i64;
    bits ^ (((bits >> 63) as u64) >> 1) as i64
}

/// The candidates, and for each its chance to be legal and its score at a cost of one.
fn two(p: [f64; 2], score: [f64; 2]) -> (Vec<PricedMove>, Vec<(f64, f64)>) {
    let ranking = vec![
        ("5f5e".to_string(), key(score[0])),
        ("5i4h".to_string(), key(score[1])),
    ];
    let moves = priced_moves(&ranking, parse_usi_square("5i"));
    let numbers = moves.iter().map(|m| (p[m.place], score[m.place])).collect();
    (moves, numbers)
}

fn at_cost(numbers: &[(f64, f64)], cost: f64) -> Vec<i64> {
    numbers.iter().map(|(p, s)| key(s - (1.0 - p) * (cost - 1.0))).collect()
}

fn grid(base: f64, floor: f64, kmax: f64, numbers: &[(f64, f64)]) -> (Vec<f64>, Vec<Vec<i64>>) {
    let steps = ((kmax - 1.0) / 0.02).floor() as i64;
    let ks: Vec<f64> = (0..=steps.max(0))
        .map(|i| ((1.0 + i as f64 * 0.02) * 100.0).round() / 100.0)
        .take_while(|k| *k <= kmax)
        .collect();
    let rows = ks.iter().map(|k| at_cost(numbers, (k * base).max(floor))).collect();
    (ks, rows)
}

fn star(moves: &Vec<PricedMove>, numbers: &[(f64, f64)], floor: f64, kmax: f64) -> Option<f64> {
    let (ks, rows) = grid(1.0, floor, kmax, numbers);
    k_star(moves, &rows).map(|i| ks[i])
}

fn king_leads(moves: &Vec<PricedMove>, numbers: &[(f64, f64)], cost: f64) -> bool {
    moves[argmax_at(moves, &at_cost(numbers, cost)).unwrap()].is_king
}

/// k_starは価格が両側に効くことを織り込む
#[test]
fn the_price_weighs_on_both_sides() {
    let (moves, numbers) = two([0.4, 0.9], [3.0, 2.0]);
    assert!(!king_leads(&moves, &numbers, 1.0));
    let k = star(&moves, &numbers, 1.0, 30.0).expect("有限の k で反転する");
    assert!((k - 3.0).abs() < 0.05, "k* = {k}");
    assert!(king_leads(&moves, &numbers, k));
    assert!(!king_leads(&moves, &numbers, (k - 0.1).max(1.0)));
}

/// k_starは小数第2位で丸めた格子を返す
#[test]
fn the_price_is_found_on_a_rounded_grid() {
    let (moves, numbers) = two([0.4, 0.9], [3.0, 2.0]);
    let k = star(&moves, &numbers, 1.0, 30.0).unwrap();
    assert_eq!(k, 3.02);
    assert_eq!(format!("{k:.2}").parse::<f64>().unwrap(), k);
    for kmax in [1.5, 4.0, 30.0] {
        let (far, numbers) = two([0.4, 0.9], [100.0, 0.0]);
        if let Some(k) = star(&far, &numbers, 1.0, kmax) {
            assert_eq!(format!("{k:.2}").parse::<f64>().unwrap(), k, "kmax={kmax}");
        }
    }
}

/// 合法確率が同じか低い玉の手は価格では浮かない
#[test]
fn no_price_lifts_a_king_move_that_is_less_likely_legal() {
    let (moves, numbers) = two([0.9, 0.4], [3.0, 2.0]);
    assert_eq!(star(&moves, &numbers, 1.0, 30.0), None);
}

/// 床は倍率より優先される
#[test]
fn the_floor_comes_before_the_factor() {
    let (moves, numbers) = two([0.4, 0.9], [3.0, 2.0]);
    assert!(king_leads(&moves, &numbers, 60.0));
    assert_eq!(star(&moves, &numbers, 60.0, 30.0), Some(1.0));
}

#[test]
fn candidates_are_ordered_by_score_and_text() {
    let ranking = vec![
        ("7g7f".to_string(), 5),
        ("5i4h".to_string(), 9),
        ("2g2f".to_string(), 5),
        ("K*5e".to_string(), 7),
    ];
    let moves = priced_moves(&ranking, parse_usi_square("5i"));
    let shown: Vec<(&str, usize, bool)> =
        moves.iter().map(|m| (m.usi.as_str(), m.place, m.is_king)).collect();
    assert_eq!(
        shown,
        [
            ("5i4h", 1, true),
            ("K*5e", 3, false),
            ("2g2f", 2, false),
            ("7g7f", 0, false)
        ]
    );
    // Of equal scores the earlier text leads.
    assert_eq!(argmax_at(&moves, &vec![1, 1, 1, 1]), Some(2));
    assert_eq!(argmax_at(&vec![], &vec![]), None);
    assert!(priced_moves(&ranking, None).iter().all(|m| !m.is_king));
}

#[test]
fn hypotheses_that_name_a_checker_are_found() {
    let square = |s: &str| parse_usi_square(s).unwrap();
    let hypotheses = vec![
        Hypothesis { square: square("5d"), role: Role::Gold },
        Hypothesis { square: square("5d"), role: Role::Rook },
        Hypothesis { square: square("1a"), role: Role::Bishop },
    ];
    let checkers = vec![(square("5d"), Role::Rook), (square("1a"), Role::Bishop)];
    assert_eq!(hypothesis_hits(&hypotheses, &checkers), [1, 2]);
    assert!(hypothesis_hits(&hypotheses, &vec![]).is_empty());
}

use tsuitate_bot::seeds::{
    ascending, draw_places, games_per_baseline, generator, iteration_seed, match_seeds, mix,
    plus_first, stable_hash, think_stats,
};

#[test]
fn games_split_is_even_and_covers_request() {
    assert_eq!(games_per_baseline(60, 1), 60);
    assert_eq!(games_per_baseline(60, 4), 16);
    assert_eq!(games_per_baseline(40, 3), 14);
    assert_eq!(games_per_baseline(1, 1), 2);
}

#[test]
fn seeds_are_mixed() {
    // The first output of the splitmix generator that starts at zero.
    assert_eq!(mix(0), 0xE220_A839_7B1D_CDAF);
    assert_eq!(iteration_seed(7, 3), mix(7 ^ 3));
    let row = match_seeds(11, 3);
    assert_eq!(row.len(), 3);
    assert_eq!(row, match_seeds(11, 3));
    assert_ne!(row[0], row[1]);
    assert!(plus_first(0));
    assert!(!plus_first(1 << 7));
}

#[test]
fn a_hash_of_a_text_is_the_same_everywhere() {
    assert_eq!(stable_hash(1, "game"), stable_hash(1, "game"));
    assert_ne!(stable_hash(1, "game"), stable_hash(2, "game"));
    assert_ne!(stable_hash(1, "game"), stable_hash(1, "gamf"));
}

#[test]
fn draws_stay_in_range() {
    let mut state = generator(6);
    assert_eq!(state, 7);
    let a = draw_places(&mut state, 10);
    assert_eq!(a.len(), 10);
    assert!(a.iter().all(|i| *i < 10));
    let mut again = generator(6);
    assert_eq!(draw_places(&mut again, 10), a);
    assert_ne!(draw_places(&mut again, 10), a);
    assert_eq!(draw_places(&mut again, 0), Vec::<usize>::new());
}

#[test]
fn thinking_times_are_summed_and_ordered() {
    assert_eq!(ascending(&[3, 1, 2]), vec![1, 2, 3]);
    assert!(think_stats(&[]).is_none());
    let t = think_stats(&[30, 10, 20]).unwrap();
    assert_eq!((t.count, t.total), (3, 60));
    assert_eq!(t.max, 30);
}

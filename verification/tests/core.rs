use pairrank::data::{
    build_items, build_list_infos, display_name, ensure_unique_id, parse_id_list, slugify,
    DataError,
};
use pairrank::fixed::ABILITY_ONE;
use pairrank::matchflow::{random_matchup, uniform_matchup, Matchup};
use pairrank::ranking::BradleyTerry;
use pairrank::record_result;
use pairrank::resolve_selection;
use pairrank::storage::{
    align_list_state, compute_match_totals, load_list_state, upsert_list_state, StoredAppState,
    StoredListState,
};

fn ids(v: &[&str]) -> Vec<String> {
    v.iter().map(|s| s.to_string()).collect()
}

#[test]
fn slugify_basic() {
    assert_eq!(slugify("Green Apple"), "green-apple");
    assert_eq!(slugify("  Mango!!!  "), "mango");
}

#[test]
fn display_name_basic() {
    assert_eq!(display_name("citrus-fruits"), "Citrus Fruits");
    assert_eq!(display_name("stone_fruit"), "Stone Fruit");
}

#[test]
fn normalization_keeps_sum_one() {
    let mut system = BradleyTerry::new(3);
    system.run_iterations(&vec![vec![0, 5, 0], vec![0, 0, 0], vec![0, 0, 0]], 5);
    let sum: u64 = system.abilities().iter().sum();
    assert_eq!(sum, ABILITY_ONE);
}

#[test]
fn abilities_increase_for_winner() {
    let wins = vec![vec![0, 3, 0], vec![0, 0, 0], vec![0, 0, 0]];

    let mut system = BradleyTerry::new(3);
    system.run_iterations(&wins, 10);

    assert!(system.abilities()[0] > system.abilities()[1]);
    assert!(system.abilities()[0] > system.abilities()[2]);
}

#[test]
fn fitting_skips_empty_matrix_and_zero_iterations() {
    let mut system = BradleyTerry::new(2);
    system.run_iterations(&vec![], 5);
    assert_eq!(system.abilities(), &[ABILITY_ONE, ABILITY_ONE]);

    system.run_iterations(&vec![vec![0, 1], vec![0, 0]], 0);
    assert_eq!(system.abilities(), &[ABILITY_ONE, ABILITY_ONE]);
}

#[test]
fn expected_score_even_matchups_and_empty_model() {
    let system = BradleyTerry::new(2);
    assert_eq!(system.expected_score(0, 1), ABILITY_ONE / 2);

    let empty = BradleyTerry::new(0);
    assert_eq!(empty.expected_score(0, 0), ABILITY_ONE / 2);

    let mut fitted = BradleyTerry::new(2);
    fitted.run_iterations(&vec![vec![0, 4], vec![1, 0]], 8);
    assert!(fitted.expected_score(0, 1) > ABILITY_ONE / 2);
}

#[test]
fn ensure_len_grows_and_truncates() {
    let mut system = BradleyTerry::new(1);
    system.ensure_len(4);
    assert_eq!(system.abilities().len(), 4);
    let sum: u64 = system.abilities().iter().sum();
    assert_eq!(sum, ABILITY_ONE);

    system.ensure_len(2);
    assert_eq!(system.abilities().len(), 2);
    let sum: u64 = system.abilities().iter().sum();
    assert_eq!(sum, ABILITY_ONE);
}

#[test]
fn from_abilities_clamps_to_floor() {
    let system = BradleyTerry::from_abilities(vec![0, 5]);
    assert_eq!(system.to_vec(), vec![1, 5]);

    let empty = BradleyTerry::from_abilities(Vec::new());
    assert_eq!(empty.to_vec(), Vec::<u64>::new());
}

#[test]
fn display_rating_and_log_score_baseline() {
    let single = BradleyTerry::new(1);
    assert_eq!(single.log_score(0), 0);
    assert_eq!(single.display_rating(0), 1_000_000);

    // Two items with raw ability 1.0 each: the count-adjusted ability is 2.0,
    // whose natural log in the fixed-point tables is 0.693.
    let pair = BradleyTerry::new(2);
    assert_eq!(pair.display_rating(0), 1_069_300);
    assert!(pair.log_score(0) == 0);
}

#[test]
fn align_creates_fresh_state() {
    let state = align_list_state(None, &ids(&["a", "b"]));
    assert_eq!(state.item_ids, ids(&["a", "b"]));
    assert_eq!(state.win_matrix, vec![vec![0, 0], vec![0, 0]]);
    assert_eq!(state.abilities, vec![ABILITY_ONE, ABILITY_ONE]);
    assert_eq!(state.match_totals, vec![0, 0]);
}

#[test]
fn align_on_empty_id_list_is_empty() {
    let state = align_list_state(None, &ids(&[]));
    assert!(state.item_ids.is_empty());
    assert!(state.win_matrix.is_empty());
}

#[test]
fn reconciliation_is_idempotent() {
    let names = ids(&["pear", "plum", "fig"]);
    let first = align_list_state(None, &names);
    let second = align_list_state(Some(first.clone()), &names);
    assert_eq!(first, second);
}

#[test]
fn reconciliation_preserves_history_under_reordering() {
    let mut state = align_list_state(None, &ids(&["a", "b"]));
    state.win_matrix[0][1] = 5;
    state.abilities = vec![700_000, 300_000];
    state.match_totals = compute_match_totals(&state.win_matrix);

    let flipped = align_list_state(Some(state), &ids(&["b", "a"]));
    assert_eq!(flipped.win_matrix[1][0], 5);
    assert_eq!(flipped.win_matrix[0][1], 0);
    assert_eq!(flipped.abilities, vec![300_000, 700_000]);
    assert_eq!(flipped.match_totals, vec![5, 5]);
}

#[test]
fn reconciliation_drops_removed_and_zero_fills_new() {
    let mut state = align_list_state(None, &ids(&["a", "b", "c"]));
    state.win_matrix[0][1] = 2;
    state.win_matrix[1][2] = 7;
    state.win_matrix[2][0] = 4;

    // One id removed, one new id added: everything touching the new id is
    // zero and the lone survivor keeps its ability.
    let shrunk = align_list_state(Some(state.clone()), &ids(&["b", "d"]));
    assert_eq!(shrunk.item_ids, ids(&["b", "d"]));
    assert_eq!(shrunk.win_matrix, vec![vec![0, 0], vec![0, 0]]);
    assert_eq!(shrunk.abilities[0], state.abilities[1]);
    assert_eq!(shrunk.abilities[1], ABILITY_ONE);

    // Cells among surviving ids keep their values.
    let trimmed = align_list_state(Some(state), &ids(&["b", "c"]));
    assert_eq!(trimmed.win_matrix[0][1], 7);
    assert_eq!(trimmed.win_matrix[1][0], 0);
    assert_eq!(trimmed.match_totals, vec![7, 7]);
}

#[test]
fn sampler_returns_none_below_two_items() {
    assert!(random_matchup(&vec![], &vec![], &vec![], None).is_none());
    assert!(
        random_matchup(&vec![ABILITY_ONE], &vec![vec![0]], &vec![0], None).is_none()
    );
    assert!(uniform_matchup(0, None).is_none());
    assert!(uniform_matchup(1, None).is_none());
}

#[test]
fn sampler_two_items_yields_the_only_pair() {
    for _ in 0..20 {
        let m = random_matchup(
            &vec![ABILITY_ONE, ABILITY_ONE],
            &vec![vec![0, 0], vec![0, 0]],
            &vec![0, 0],
            None,
        )
        .expect("two items must give a matchup");
        assert!(m.left_index != m.right_index);
        assert!(m.left_index < 2 && m.right_index < 2);

        let u = uniform_matchup(2, None).expect("two items must give a matchup");
        assert!(u.left_index != u.right_index);
        assert!(u.left_index < 2 && u.right_index < 2);
    }
}

#[test]
fn uniform_sampler_deterministically_avoids_previous_pair() {
    let prev = Matchup { left_index: 0, right_index: 1 };
    for _ in 0..200 {
        let m = uniform_matchup(3, Some(&prev)).expect("three items must give a matchup");
        let same = (m.left_index == 0 && m.right_index == 1)
            || (m.left_index == 1 && m.right_index == 0);
        assert!(!same);
        assert!(m.left_index < 3 && m.right_index < 3 && m.left_index != m.right_index);
    }
}

#[test]
fn primary_sampler_mostly_avoids_previous_pair() {
    let prev = Matchup { left_index: 0, right_index: 1 };
    let abilities = vec![ABILITY_ONE / 3; 3];
    let matrix = vec![vec![0, 0, 0]; 3];
    let totals = vec![0, 0, 0];
    let mut repeats = 0;
    for _ in 0..300 {
        let m = random_matchup(&abilities, &matrix, &totals, Some(&prev))
            .expect("three items must give a matchup");
        assert!(m.left_index < 3 && m.right_index < 3 && m.left_index != m.right_index);
        let same = (m.left_index == 0 && m.right_index == 1)
            || (m.left_index == 1 && m.right_index == 0);
        if same {
            repeats += 1;
        }
    }
    assert!(repeats < 150, "previous pair drawn {repeats} times out of 300");
}

#[test]
fn primary_sampler_prefers_fresh_opponents() {
    // Items 0 and 1 have played each other a lot; item 2 has never played.
    // Whenever 0 or 1 is picked first, the never-compared opponent 2 is the
    // only fresh candidate, so the pair must involve item 2.
    let abilities = vec![400_000, 400_000, 200_000];
    let matrix = vec![vec![0, 9, 0], vec![9, 0, 0], vec![0, 0, 0]];
    let totals = compute_match_totals(&matrix);
    for _ in 0..50 {
        let m = random_matchup(&abilities, &matrix, &totals, None).unwrap();
        assert!(m.left_index == 2 || m.right_index == 2);
    }
}

#[test]
fn ensure_unique_id_appends_counters() {
    let mut seen: Vec<String> = Vec::new();
    assert_eq!(ensure_unique_id(&mut seen, "apple".to_string()), "apple");
    assert_eq!(ensure_unique_id(&mut seen, "apple".to_string()), "apple-2");
    assert_eq!(ensure_unique_id(&mut seen, "apple".to_string()), "apple-3");
    assert_eq!(seen, ids(&["apple", "apple-2", "apple-3"]));
}

#[test]
fn build_items_slugs_and_uniquifies() {
    let items = build_items(
        "fruits",
        ids(&["Green Apple", "green apple", "  Mango  "]),
    )
    .expect("well-formed labels must build");
    assert_eq!(items.len(), 3);
    assert_eq!(items[0].id, "green-apple");
    assert_eq!(items[0].label, "Green Apple");
    assert_eq!(items[1].id, "green-apple-2");
    assert_eq!(items[2].id, "mango");
    assert_eq!(items[2].label, "Mango");
}

#[test]
fn build_items_position_fallback_for_empty_slug() {
    let items = build_items("misc", ids(&["!!!", "???"])).expect("items must build");
    assert_eq!(items[0].id, "item-0");
    assert_eq!(items[1].id, "item-1");
    assert_eq!(items[0].label, "!!!");
}

#[test]
fn build_items_rejects_empty_and_blank() {
    assert!(matches!(
        build_items("fruits", Vec::new()),
        Err(DataError::Parse(_))
    ));
    assert!(matches!(
        build_items("fruits", ids(&["ok", "   "])),
        Err(DataError::Parse(_))
    ));
}

#[test]
fn build_list_infos_labels_ids() {
    let infos = build_list_infos(ids(&["citrus-fruits", "stone_fruit"]));
    assert_eq!(infos.len(), 2);
    assert_eq!(infos[0].id, "citrus-fruits");
    assert_eq!(infos[0].label, "Citrus Fruits");
    assert_eq!(infos[1].label, "Stone Fruit");
}

#[test]
fn parse_id_list_round_trip() {
    let text = serde_json::to_string(&ids(&["alpha", "beta"])).unwrap();
    let parsed = parse_id_list(&text).expect("valid JSON array must parse");
    assert_eq!(parsed, ids(&["alpha", "beta"]));
}

#[test]
fn parse_id_list_rejects_garbage() {
    assert!(matches!(parse_id_list("not json"), Err(DataError::Parse(_))));
    assert!(matches!(parse_id_list("{\"a\": 1}"), Err(DataError::Parse(_))));
}

#[test]
fn error_helpers_wrap_messages() {
    assert!(matches!(
        DataError::network("boom".to_string()),
        DataError::Network(m) if m == "boom"
    ));
    assert!(matches!(
        DataError::parse("bad".to_string()),
        DataError::Parse(m) if m == "bad"
    ));
}

#[test]
fn app_state_upsert_and_lookup() {
    let mut app = StoredAppState::default();
    assert!(app.selected_list.is_none());
    assert!(load_list_state(&app, "fruits").is_none());

    let fruits = align_list_state(None, &ids(&["a", "b"]));
    upsert_list_state(&mut app, "fruits", fruits.clone());
    assert_eq!(load_list_state(&app, "fruits"), Some(&fruits));
    assert!(load_list_state(&app, "veggies").is_none());

    let replacement = align_list_state(None, &ids(&["x"]));
    upsert_list_state(&mut app, "fruits", replacement.clone());
    assert_eq!(load_list_state(&app, "fruits"), Some(&replacement));
    assert_eq!(app.lists.len(), 1);
}

#[test]
fn total_matches_uses_cache_or_matrix() {
    let mut state = align_list_state(None, &ids(&["a", "b"]));
    state.win_matrix[0][1] = 3;
    state.match_totals = compute_match_totals(&state.win_matrix);
    assert_eq!(state.match_totals, vec![3, 3]);
    assert_eq!(state.total_matches(), 3);

    // A stale cache of the wrong length falls back to the matrix sum.
    state.match_totals = vec![9];
    assert_eq!(state.total_matches(), 3);
}

#[test]
fn compute_match_totals_sums_rows_and_columns() {
    assert_eq!(compute_match_totals(&vec![vec![0, 2], vec![1, 0]]), vec![3, 3]);
    assert_eq!(compute_match_totals(&Vec::new()), Vec::<u32>::new());
}

#[test]
fn record_result_updates_state_and_model() {
    let mut state = align_list_state(None, &ids(&["a", "b"]));
    let mut ranking = BradleyTerry::from_abilities(state.abilities.clone());
    record_result(&mut state, &mut ranking, 0, 1, 6);

    assert_eq!(state.win_matrix[0][1], 1);
    assert_eq!(state.win_matrix[1][0], 0);
    assert_eq!(state.match_totals, vec![1, 1]);
    let sum: u64 = state.abilities.iter().sum();
    assert_eq!(sum, ABILITY_ONE);
    assert!(state.abilities[0] > state.abilities[1]);

    // Out-of-range indices leave everything untouched.
    let before = state.clone();
    record_result(&mut state, &mut ranking, 5, 1, 6);
    assert_eq!(state, before);
}

#[test]
fn resolve_selection_keeps_or_falls_back() {
    let lists = build_list_infos(ids(&["apples", "pears"]));
    assert_eq!(
        resolve_selection(&lists, Some("pears".to_string())),
        Some("pears".to_string())
    );
    assert_eq!(
        resolve_selection(&lists, Some("gone".to_string())),
        Some("apples".to_string())
    );
    assert_eq!(resolve_selection(&lists, None), Some("apples".to_string()));
    assert_eq!(resolve_selection(&[], Some("x".to_string())), None);
    assert_eq!(resolve_selection(&[], None), None);
}

#[test]
fn monotonic_reward_with_minimum_iterations() {
    let wins = vec![vec![0, 3, 0], vec![0, 0, 0], vec![0, 0, 0]];
    let mut system = BradleyTerry::new(3);
    system.run_iterations(&wins, 5);
    assert!(system.abilities()[0] > system.abilities()[1]);
    assert!(system.abilities()[0] > system.abilities()[2]);
}

#[test]
fn display_name_lowercases_word_tails() {
    assert_eq!(display_name("STONE_FRUIT"), "Stone Fruit");
    assert_eq!(display_name("miXED-caSE"), "Mixed Case");
}

#[test]
fn slugify_collapses_separator_runs() {
    assert_eq!(slugify("a __ b"), "a-b");
    assert_eq!(slugify("---"), "");
    assert_eq!(slugify(""), "");
}

#[test]
fn normalization_keeps_the_ability_floor() {
    // A tiny ability next to a dominant one must stay at the one-millionth
    // floor after renormalization, never collapse to zero.
    let mut system = BradleyTerry::from_abilities(vec![1, 2_000_000]);
    system.ensure_len(2);
    let abilities = system.to_vec();
    assert_eq!(abilities, vec![1, 999_999]);
    assert!(abilities.iter().all(|&a| a >= 1));
    let sum: u64 = abilities.iter().sum();
    assert_eq!(sum, ABILITY_ONE);
}

#[test]
fn normalization_preserves_order() {
    let mut system = BradleyTerry::from_abilities(vec![5, 3, 3, 1]);
    system.ensure_len(4);
    let a = system.to_vec();
    assert_eq!(a, vec![416_666, 250_000, 250_000, 83_334]);
    assert!(a[0] > a[1] && a[1] == a[2] && a[2] > a[3]);
    let sum: u64 = a.iter().sum();
    assert_eq!(sum, ABILITY_ONE);
}

#[test]
fn expected_score_stays_strictly_inside_the_unit_interval() {
    // The most lopsided representable matchup still reports a probability
    // at the floor rather than exactly zero or one.
    let system = BradleyTerry::from_abilities(vec![1, 1_000_000_000_000]);
    assert_eq!(system.expected_score(0, 1), 1);
    assert!(system.expected_score(1, 0) < ABILITY_ONE);
    assert!(system.expected_score(1, 0) >= ABILITY_ONE - 2);
}

#[test]
fn primary_sampler_always_pairs_with_a_fresh_opponent() {
    // Items 0 and 1 have history against each other; 2 and 3 are fresh for
    // everyone. Whichever item is picked first, a never-compared opponent
    // exists, so the returned pair must be a never-compared one.
    let abilities = vec![300_000, 300_000, 200_000, 200_000];
    let matrix = vec![
        vec![0, 6, 0, 0],
        vec![4, 0, 0, 0],
        vec![0, 0, 0, 0],
        vec![0, 0, 0, 0],
    ];
    let totals = compute_match_totals(&matrix);
    for _ in 0..50 {
        let m = random_matchup(&abilities, &matrix, &totals, None).unwrap();
        let pair_count = matrix[m.left_index][m.right_index] + matrix[m.right_index][m.left_index];
        assert_eq!(pair_count, 0);
    }
}

#[test]
fn reconciliation_rebuilds_a_stale_totals_cache() {
    // A record whose ids already line up but whose totals cache disagrees
    // with the matrix: alignment must rebuild the cache from the matrix.
    let mut state = align_list_state(None, &ids(&["a", "b"]));
    state.win_matrix[0][1] = 5;
    assert_eq!(state.match_totals, vec![0, 0]);

    let aligned = align_list_state(Some(state.clone()), &ids(&["a", "b"]));
    assert_eq!(aligned.item_ids, state.item_ids);
    assert_eq!(aligned.win_matrix, state.win_matrix);
    assert_eq!(aligned.abilities, state.abilities);
    assert_eq!(aligned.match_totals, vec![5, 5]);
    assert_eq!(aligned.total_matches(), 5);
}

use racing::trainer::{
    calculate_reward, simple_random, InstantiateMsg, QUpdate, RewardType, TrainerError, TrainerState, EXPLORATION_BONUS,
    NO_MOVE_PENALTY, STUCK_PENALTY, WALL_PENALTY,
};

fn new_trainer(admin: &str) -> TrainerState {
    TrainerState::instantiate(InstantiateMsg { admin: admin.to_string() })
}

fn update(trainer: &mut TrainerState, car: &str, state: &str, action: u8, reward_type: RewardType, next: Option<&str>) -> Result<racing::trainer::QValueUpdate, TrainerError> {
    trainer.execute_update_q_value(car.to_string(), state.to_string(), action, reward_type, next.map(|s| s.to_string()))
}

fn record(trainer: &mut TrainerState, car: &str, track: &str, won: bool) {
    trainer.update_track_results(&car.to_string(), &track.to_string(), won);
}

fn training_updates(trainer: &TrainerState, car: &str) -> u32 {
    trainer.query_car_training_stats(car.to_string()).training_updates
}

fn q_update(car: &str, state: &str, action: u8, reward_type: RewardType, next: Option<&str>) -> QUpdate {
    QUpdate {
        car_id: car.to_string(),
        state_hash: state.to_string(),
        action,
        reward_type,
        next_state_hash: next.map(|s| s.to_string()),
    }
}

/// Ten steps per round through states `{track}_{round}_{step}`, rewarded by track kind.
fn create_training_data_for_track(track_type: &str, training_rounds: u32) -> Vec<QUpdate> {
    let mut updates = Vec::new();
    for round in 0..training_rounds {
        for step in 0..10u32 {
            let state_hash = format!("{}_{}_{}", track_type, round, step);
            let next_state_hash = if step < 9 { Some(format!("{}_{}_{}", track_type, round, step + 1)) } else { None };
            let reward_type = match track_type {
                "straight" => {
                    if step < 5 {
                        RewardType::Distance(10)
                    } else {
                        RewardType::Distance(20)
                    }
                }
                "zigzag" => {
                    if step % 2 == 0 {
                        RewardType::Distance(15)
                    } else {
                        RewardType::Distance(5)
                    }
                }
                "special" => match step {
                    0..=2 => RewardType::Distance(10),
                    3 => RewardType::Explore,
                    4 => RewardType::Distance(5),
                    5 => RewardType::Stuck,
                    6 => RewardType::Wall,
                    7..=9 => RewardType::Distance(15),
                    _ => RewardType::Distance(5),
                },
                _ => RewardType::Distance(10),
            };
            updates.push(QUpdate {
                car_id: "test_car".to_string(),
                state_hash,
                action: (step % 5) as u8,
                reward_type,
                next_state_hash,
            });
        }
    }
    updates
}

#[test]
fn tests_test_instantiate() {
    let trainer = new_trainer("creator");
    assert_eq!(training_updates(&trainer, "anyone"), 0);
}

#[test]
fn test_update_q_value() {
    let mut trainer = new_trainer("creator");
    let res = update(&mut trainer, "car_1", "state_1", 2, RewardType::Distance(10), Some("state_2"));
    assert!(res.is_ok());
    assert_eq!(training_updates(&trainer, "car_1"), 1);
}

#[test]
fn test_batch_update_q_values() {
    let mut trainer = new_trainer("creator");
    let updates = vec![
        q_update("car_1", "state_1", 0, RewardType::Distance(10), Some("state_2")),
        q_update("car_1", "state_2", 1, RewardType::Rank(1), None),
    ];
    let res = trainer.execute_batch_update_q_values(updates);
    assert!(res.is_ok());
    assert_eq!(training_updates(&trainer, "car_1"), 2);
}

#[test]
fn test_record_track_result() {
    let mut trainer = new_trainer("creator");
    record(&mut trainer, "car_1", "track_1", true);
    let results = trainer.query_track_results("car_1".to_string(), "track_1".to_string());
    assert_eq!(results.wins, 1);
    assert_eq!(results.losses, 0);
}

#[test]
fn test_multiple_track_results() {
    let mut trainer = new_trainer("creator");
    for i in 0..3 {
        let won = i % 2 == 0;
        record(&mut trainer, "car_1", "track_1", won);
    }
    let results = trainer.query_track_results("car_1".to_string(), "track_1".to_string());
    assert_eq!(results.wins, 2);
    assert_eq!(results.losses, 1);
}

#[test]
fn test_different_reward_types() {
    let mut trainer = new_trainer("creator");
    let reward_types = vec![
        RewardType::Distance(10),
        RewardType::Stuck,
        RewardType::Wall,
        RewardType::NoMove,
        RewardType::Explore,
        RewardType::Rank(1),
    ];
    for (i, reward_type) in reward_types.iter().enumerate() {
        let res = trainer.execute_update_q_value(
            "car_1".to_string(),
            format!("state_{}", i),
            (i % 5) as u8,
            *reward_type,
            Some(format!("state_{}", i + 1)),
        );
        assert!(res.is_ok());
    }
    assert_eq!(training_updates(&trainer, "car_1"), 6);
}

#[test]
fn tests_test_multiple_cars_training() {
    let mut trainer = new_trainer("creator");
    for car_id in 1..=3 {
        let res = trainer.execute_update_q_value(
            format!("car_{}", car_id),
            "state_1".to_string(),
            0,
            RewardType::Distance(10),
            Some("state_2".to_string()),
        );
        assert!(res.is_ok());
    }
    for car_id in 1..=3 {
        assert_eq!(trainer.query_car_training_stats(format!("car_{}", car_id)).training_updates, 1);
    }
}

#[test]
fn test_track_results_for_multiple_cars() {
    let mut trainer = new_trainer("creator");
    for car_id in 1..=3 {
        trainer.update_track_results(&format!("car_{}", car_id), &"track_1".to_string(), car_id % 2 == 1);
    }
    for car_id in 1..=3 {
        let results = trainer.query_track_results(format!("car_{}", car_id), "track_1".to_string());
        if car_id % 2 == 1 {
            assert_eq!(results.wins, 1);
            assert_eq!(results.losses, 0);
        } else {
            assert_eq!(results.wins, 0);
            assert_eq!(results.losses, 1);
        }
    }
}

#[test]
fn test_integration_q_learning_training() {
    let mut trainer = new_trainer("admin");
    let result = update(&mut trainer, "car_1", "state_1", 2, RewardType::Distance(10), Some("state_2"));
    assert!(result.is_ok());
    assert_eq!(training_updates(&trainer, "car_1"), 1);
}

#[test]
fn test_integration_batch_training() {
    let mut trainer = new_trainer("admin");
    let updates = vec![
        q_update("car_1", "state_1", 0, RewardType::Distance(10), Some("state_2")),
        q_update("car_1", "state_2", 1, RewardType::Rank(1), None),
        q_update("car_2", "state_1", 2, RewardType::Stuck, Some("state_3")),
    ];
    let result = trainer.execute_batch_update_q_values(updates);
    assert!(result.is_ok());
    assert_eq!(training_updates(&trainer, "car_1"), 2);
    assert_eq!(training_updates(&trainer, "car_2"), 1);
}

#[test]
fn test_integration_track_results() {
    let mut trainer = new_trainer("admin");
    for i in 1..=5 {
        record(&mut trainer, "car_1", "track_1", i % 2 == 1);
    }
    let results = trainer.query_track_results("car_1".to_string(), "track_1".to_string());
    assert_eq!(results.wins, 3);
    assert_eq!(results.losses, 2);
}

#[test]
fn test_integration_multiple_cars_and_tracks() {
    let mut trainer = new_trainer("admin");
    for car_id in 1..=3u32 {
        for track_id in 1..=2u32 {
            let res = trainer.execute_update_q_value(
                format!("car_{}", car_id),
                format!("state_{}", track_id),
                (car_id + track_id) as u8 % 5,
                RewardType::Distance(10),
                Some(format!("state_{}", track_id + 1)),
            );
            assert!(res.is_ok());
            trainer.update_track_results(&format!("car_{}", car_id), &format!("track_{}", track_id), (car_id + track_id) % 2 == 0);
        }
    }
    for car_id in 1..=3u32 {
        assert_eq!(trainer.query_car_training_stats(format!("car_{}", car_id)).training_updates, 2);
    }
    for car_id in 1..=3u32 {
        for track_id in 1..=2u32 {
            let results = trainer.query_track_results(format!("car_{}", car_id), format!("track_{}", track_id));
            let expected_wins = if (car_id + track_id) % 2 == 0 { 1 } else { 0 };
            let expected_losses = if (car_id + track_id) % 2 == 0 { 0 } else { 1 };
            assert_eq!(results.wins, expected_wins);
            assert_eq!(results.losses, expected_losses);
        }
    }
}

#[test]
fn test_integration_error_handling() {
    let mut trainer = new_trainer("admin");
    let result = update(&mut trainer, "car_1", "state_1", 2, RewardType::Distance(10), Some("state_2"));
    assert!(result.is_ok());

    let result = update(&mut trainer, "car_1", "state_1", 10, RewardType::Distance(10), Some("state_2"));
    match result {
        Ok(_) => panic!("Expected error for invalid action, but got success"),
        Err(e) => {
            let error_str = format!("{:?} {}", e, e.message());
            assert!(error_str.contains("Invalid action") || error_str.contains("Invalid action index"));
        }
    }

    // Querying a car that was never trained is no error: its statistics are all zero, which
    // `test_basic_training_single_track` relies on before the first update.
    let stats = trainer.query_car_training_stats("non_existent".to_string());
    assert_eq!(stats.training_updates, 0);
}

#[test]
fn test_basic_training_single_track() {
    let mut trainer = new_trainer("owner");
    let car_id = "test_car".to_string();
    assert_eq!(trainer.query_car_training_stats(car_id.clone()).training_updates, 0);

    let training_data = create_training_data_for_track("straight", 5);
    for update in training_data.iter() {
        let result = trainer.execute_update_q_value(
            update.car_id.clone(),
            update.state_hash.clone(),
            update.action,
            update.reward_type,
            update.next_state_hash.clone(),
        );
        assert!(result.is_ok());
    }

    assert_eq!(trainer.query_car_training_stats(car_id.clone()).training_updates, 50);
    let q_values = trainer.query_q_value(car_id.clone(), "straight_0_0".to_string());
    assert_eq!(q_values.q_values.len(), 5);
    assert!(q_values.q_values.iter().any(|&val| val > 0));
}

#[test]
fn test_batch_training_single_track() {
    let mut trainer = new_trainer("owner");
    let training_data = create_training_data_for_track("straight", 3);
    let result = trainer.execute_batch_update_q_values(training_data);
    assert!(result.is_ok());
    assert_eq!(trainer.query_car_training_stats("test_car".to_string()).training_updates, 30);
}

#[test]
fn test_error_handling() {
    let mut trainer = new_trainer("owner");
    let result = update(&mut trainer, "test_car", "test_state", 10, RewardType::Distance(10), None);
    assert!(result.is_err());
    let result = update(&mut trainer, "test_car", "test_state", 0, RewardType::Distance(10), None);
    assert!(result.is_ok());
}

#[test]
fn rewards_of_each_type() {
    assert_eq!(calculate_reward(RewardType::Distance(10)), 10);
    assert_eq!(calculate_reward(RewardType::Distance(-7)), -7);
    assert_eq!(calculate_reward(RewardType::Stuck), STUCK_PENALTY);
    assert_eq!(calculate_reward(RewardType::Stuck), -5);
    assert_eq!(calculate_reward(RewardType::Wall), WALL_PENALTY);
    assert_eq!(calculate_reward(RewardType::Wall), -8);
    assert_eq!(calculate_reward(RewardType::NoMove), NO_MOVE_PENALTY);
    assert_eq!(calculate_reward(RewardType::NoMove), -2);
    assert_eq!(calculate_reward(RewardType::Explore), EXPLORATION_BONUS);
    assert_eq!(calculate_reward(RewardType::Explore), 6);
    assert_eq!(calculate_reward(RewardType::Rank(0)), 100);
    assert_eq!(calculate_reward(RewardType::Rank(1)), 50);
    assert_eq!(calculate_reward(RewardType::Rank(2)), 25);
    assert_eq!(calculate_reward(RewardType::Rank(3)), 10);
    assert_eq!(calculate_reward(RewardType::Rank(4)), 0);
    assert_eq!(calculate_reward(RewardType::Rank(255)), 0);
}

#[test]
fn single_update_reports_old_and_new_values() {
    let mut trainer = new_trainer("admin");
    // Next state holds [0, 20, 0, 0, 0]: max 20.
    trainer.set_q_values("car".to_string(), "next".to_string(), [0, 20, 0, 0, 0]);
    let u = update(&mut trainer, "car", "here", 3, RewardType::Distance(10), Some("next")).unwrap();
    // 0.9 * 0 + 0.1 * (10 + 0.9 * 20) = 2.8
    assert_eq!(u.old_value, 0);
    assert_eq!(u.new_value, 3);
    assert_eq!(u.reward, 10);
    assert_eq!(trainer.query_q_value("car".to_string(), "here".to_string()).q_values, [0, 0, 0, 3, 0]);
    let u = update(&mut trainer, "car", "here", 3, RewardType::Distance(10), Some("next")).unwrap();
    // 0.9 * 3 + 2.8 = 5.5, rounded away from zero
    assert_eq!(u.old_value, 3);
    assert_eq!(u.new_value, 6);
    // Another car does not see these values.
    assert_eq!(trainer.query_q_value("other".to_string(), "here".to_string()).q_values, [0; 5]);
    assert_eq!(training_updates(&trainer, "car"), 2);
}

#[test]
fn invalid_action_changes_nothing() {
    let mut trainer = new_trainer("admin");
    let err = update(&mut trainer, "car", "s", 5, RewardType::Explore, None).unwrap_err();
    match &err {
        TrainerError::InvalidAction { action } => assert_eq!(*action, 5),
        other => panic!("unexpected error {:?}", other),
    }
    assert_eq!(err.message(), "Invalid action: 5");
    assert_eq!(training_updates(&trainer, "car"), 0);
    assert_eq!(trainer.get_q_values(&"car".to_string(), &"s".to_string()), None);
}

#[test]
fn error_messages() {
    assert_eq!(TrainerError::InvalidAction { action: 42 }.message(), "Invalid action: 42");
    assert_eq!(
        TrainerError::TrainingSessionAlreadyActive { car_id: "c1".to_string() }.message(),
        "Training session already active for car: c1"
    );
    assert_eq!(
        TrainerError::TrainingSessionNotFound { car_id: "c2".to_string() }.message(),
        "Training session not found for car: c2"
    );
    assert_eq!(TrainerError::InvalidTrainingConfig.message(), "Invalid training configuration");
    assert_eq!(TrainerError::InvalidRewardConfig.message(), "Invalid reward configuration");
}

#[test]
fn batch_stores_values_under_hexadecimal_keys() {
    let mut trainer = new_trainer("admin");
    let summary = trainer
        .execute_batch_update_q_values(vec![q_update("car_1", "state_1", 0, RewardType::Distance(10), None)])
        .unwrap();
    assert_eq!(summary.total_updates, 1);
    assert_eq!(summary.total_reward, 10);
    // "state_1" as UTF-8 bytes in lower-case hexadecimal.
    let key = "73746174655f31".to_string();
    assert_eq!(trainer.query_q_value("car_1".to_string(), key).q_values, [1, 0, 0, 0, 0]);
    assert_eq!(trainer.query_q_value("car_1".to_string(), "state_1".to_string()).q_values, [0; 5]);
}

#[test]
fn batch_applies_updates_in_order() {
    // The second step reads the value the first step wrote for its next state.
    let mut trainer = new_trainer("admin");
    let summary = trainer
        .execute_batch_update_q_values(vec![
            q_update("car", "b", 1, RewardType::Rank(0), None),
            q_update("car", "a", 0, RewardType::Distance(0), Some("b")),
        ])
        .unwrap();
    assert_eq!(summary.total_updates, 2);
    assert_eq!(summary.total_reward, 100);
    // b: 0.1 * 100 = 10; a: 0.1 * (0 + 0.9 * 10) = 0.9 -> 1
    assert_eq!(trainer.query_q_value("car".to_string(), "62".to_string()).q_values, [0, 10, 0, 0, 0]);
    assert_eq!(trainer.query_q_value("car".to_string(), "61".to_string()).q_values, [1, 0, 0, 0, 0]);

    // The same steps one at a time, under the same keys, give the same table.
    let mut single = new_trainer("admin");
    single.execute_update_q_value("car".to_string(), "62".to_string(), 1, RewardType::Rank(0), None).unwrap();
    single.execute_update_q_value("car".to_string(), "61".to_string(), 0, RewardType::Distance(0), Some("62".to_string())).unwrap();
    for key in ["61", "62"] {
        assert_eq!(
            single.query_q_value("car".to_string(), key.to_string()).q_values,
            trainer.query_q_value("car".to_string(), key.to_string()).q_values
        );
    }
    assert_eq!(training_updates(&single, "car"), training_updates(&trainer, "car"));
}

#[test]
fn batch_stops_at_the_first_invalid_action() {
    let mut trainer = new_trainer("admin");
    let err = trainer
        .execute_batch_update_q_values(vec![
            q_update("car", "a", 0, RewardType::Distance(10), None),
            q_update("car", "b", 7, RewardType::Distance(10), None),
            q_update("car", "c", 9, RewardType::Distance(10), None),
        ])
        .unwrap_err();
    match err {
        TrainerError::InvalidAction { action } => assert_eq!(action, 7),
        other => panic!("unexpected error {:?}", other),
    }
    // The step before the invalid action was applied; the steps after it were not.
    assert_eq!(training_updates(&trainer, "car"), 1);
    assert_eq!(trainer.query_q_value("car".to_string(), "61".to_string()).q_values, [1, 0, 0, 0, 0]);
    assert_eq!(trainer.query_q_value("car".to_string(), "63".to_string()).q_values, [0; 5]);
}

#[test]
fn empty_batch_changes_nothing() {
    let mut trainer = new_trainer("admin");
    let summary = trainer.execute_batch_update_q_values(Vec::new()).unwrap();
    assert_eq!(summary.total_updates, 0);
    assert_eq!(summary.total_reward, 0);
}

#[test]
fn statistics_and_results_storage() {
    let mut trainer = new_trainer("admin");
    let car = "car".to_string();
    assert_eq!(trainer.get_training_stats(&car), None);
    assert_eq!(trainer.increment_training_stats(&car), 1);
    assert_eq!(trainer.increment_training_stats(&car), 2);
    assert_eq!(trainer.get_training_stats(&car), Some(2));
    let track = "t".to_string();
    assert_eq!(trainer.get_track_results(&car, &track), None);
    assert_eq!(trainer.update_track_results(&car, &track, true), (1, 0));
    assert_eq!(trainer.update_track_results(&car, &track, false), (1, 1));
    assert_eq!(trainer.get_track_results(&car, &track), Some((1, 1)));
    let none = trainer.query_track_results("car".to_string(), "other".to_string());
    assert_eq!((none.wins, none.losses), (0, 0));
    assert_eq!(none.car_id, "car");
    assert_eq!(none.track_id, "other");
    trainer.set_q_values(car.clone(), "s".to_string(), [1, 2, 3, 4, 5]);
    assert_eq!(trainer.get_q_values(&car, &"s".to_string()), Some([1, 2, 3, 4, 5]));
    trainer.set_q_values(car.clone(), "s".to_string(), [5, 4, 3, 2, 1]);
    assert_eq!(trainer.get_q_values(&car, &"s".to_string()), Some([5, 4, 3, 2, 1]));
    let q = trainer.query_q_value("car".to_string(), "s".to_string());
    assert_eq!(q.car_id, "car");
    assert_eq!(q.state_hash, "s");
    assert_eq!(q.q_values, [5, 4, 3, 2, 1]);
}

#[test]
fn simple_random_is_the_linear_congruential_step() {
    // (1103515245 * 0 + 12345) mod 2^32 = 12345
    assert_eq!(simple_random(0, 1000), 345);
    // (1103515245 + 12345) mod 2^32 = 1103527590
    assert_eq!(simple_random(1, 1000), 590);
    assert_eq!(simple_random(1, 5), 0);
    // 1103515245 * 2 + 12345 = 2207042835 < 2^32
    assert_eq!(simple_random(2, 1000), 835);
    // 1103515245 * 4 + 12345 = 4414073325, minus 2^32 = 119106029
    assert_eq!(simple_random(4, 1000), 29);
    for seed in 0..50 {
        assert!(simple_random(seed, 7) < 7);
    }
}

#[test]
fn trainer_parts_round_trip() {
    let trainer = TrainerState::from_parts(
        "admin".to_string(),
        vec![("car".to_string(), "s".to_string(), [1, 2, 3, 4, 5]), ("car".to_string(), "s".to_string(), [9, 9, 9, 9, 9])],
        vec![("car".to_string(), 7)],
        vec![("car".to_string(), "t".to_string(), (2, 3))],
    );
    // Later entries win.
    assert_eq!(trainer.get_q_values(&"car".to_string(), &"s".to_string()), Some([9, 9, 9, 9, 9]));
    assert_eq!(trainer.get_training_stats(&"car".to_string()), Some(7));
    assert_eq!(trainer.get_track_results(&"car".to_string(), &"t".to_string()), Some((2, 3)));
    let (admin, q, stats, results) = trainer.into_parts();
    assert_eq!(admin, "admin");
    let again = TrainerState::from_parts(admin, q, stats, results);
    assert_eq!(again.query_q_value("car".to_string(), "s".to_string()).q_values, [9; 5]);
    assert_eq!(again.query_car_training_stats("car".to_string()).training_updates, 7);
}

#[test]
fn batch_overflow_check() {
    let near_full = TrainerState::from_parts("admin".to_string(), Vec::new(), vec![("car".to_string(), u32::MAX - 1)], Vec::new());
    let one = vec![q_update("car", "a", 0, RewardType::Distance(1), None)];
    let two = vec![q_update("car", "a", 0, RewardType::Distance(1), None), q_update("car", "b", 0, RewardType::Distance(1), None)];
    assert!(near_full.batch_fits_check(&one));
    assert!(!near_full.batch_fits_check(&two));
    // Updates after the first invalid action are never applied, so they are not counted.
    let stopped = vec![
        q_update("car", "a", 0, RewardType::Distance(1), None),
        q_update("car", "b", 9, RewardType::Distance(1), None),
        q_update("car", "c", 0, RewardType::Distance(1), None),
    ];
    assert!(near_full.batch_fits_check(&stopped));
    let fresh = new_trainer("admin");
    let big = vec![
        q_update("x", "a", 0, RewardType::Distance(i32::MAX), None),
        q_update("x", "b", 0, RewardType::Distance(1), None),
    ];
    assert!(!fresh.batch_fits_check(&big));
    assert!(fresh.batch_fits_check(&two));
}

/// Applies one learning step and returns the reward and the new Q-value it reported.
fn learn_step(trainer: &mut TrainerState, update: &QUpdate) -> (i32, i32) {
    let u = trainer
        .execute_update_q_value(
            update.car_id.clone(),
            update.state_hash.clone(),
            update.action,
            update.reward_type,
            update.next_state_hash.clone(),
        )
        .unwrap();
    (u.reward, u.new_value)
}

#[test]
fn test_training_progress_output() {
    let mut trainer = new_trainer("owner");
    let car_id = "test_car".to_string();
    let track_id = "straight_track".to_string();
    println!("\n=== Training Progress Output ===");
    println!("Car ID: {}", car_id);
    println!("Track ID: {}", track_id);
    println!("Starting training...\n");
    let training_rounds = 5;
    let steps_per_round = 10;
    for round in 0..training_rounds {
        println!("--- Training Round {} ---", round + 1);
        for step in 0..steps_per_round {
            let next = if step < steps_per_round - 1 { Some(format!("straight_{}_{}", round, step + 1)) } else { None };
            let reward_type = if step < 5 { RewardType::Distance(10) } else { RewardType::Distance(20) };
            let u = trainer
                .execute_update_q_value(car_id.clone(), format!("straight_{}_{}", round, step), (step % 5) as u8, reward_type, next)
                .unwrap();
            println!("  Step {}: Action={}, Old={}, New={}, Reward={}", step + 1, step % 5, u.old_value, u.new_value, u.reward);
        }
        let stats = trainer.query_car_training_stats(car_id.clone());
        println!("  Training updates: {}", stats.training_updates);
        let q = trainer.query_q_value(car_id.clone(), "straight_0_0".to_string());
        println!("  Q-values for state 'straight_0_0': {:?}", q.q_values);
        println!();
    }
    let final_stats = trainer.query_car_training_stats(car_id.clone());
    println!("=== Final Training Summary ===");
    println!("Total training updates: {}", final_stats.training_updates);
    println!("Average updates per round: {:.1}", final_stats.training_updates as f32 / training_rounds as f32);
}

#[test]
fn test_multi_track_training() {
    let mut trainer = new_trainer("owner");
    let car_id = "test_car".to_string();
    println!("\n=== Multi-Track Training Test ===");
    println!("Car ID: {}", car_id);
    let tracks = vec![("straight", "Straight Track", 3), ("zigzag", "Zigzag Track", 3), ("special", "Special Tiles Track", 3)];
    for (track_type, track_name, training_rounds) in &tracks {
        println!("\n--- Training on {} ---", track_name);
        for update in create_training_data_for_track(track_type, *training_rounds).iter() {
            learn_step(&mut trainer, update);
        }
        let stats = trainer.query_car_training_stats(car_id.clone());
        println!("  Training updates: {}", stats.training_updates);
        let q = trainer.query_q_value(car_id.clone(), format!("{}_0_0", track_type));
        println!("  Q-values for state '{}_{}_0_0': {:?}", track_type, track_type, q.q_values);
        let won = track_type == &"straight";
        trainer.update_track_results(&car_id, &track_type.to_string(), won);
        let results = trainer.query_track_results(car_id.clone(), track_type.to_string());
        println!("  Track results: {} wins, {} losses", results.wins, results.losses);
    }
    let final_stats = trainer.query_car_training_stats(car_id.clone());
    println!("\n=== Final Multi-Track Summary ===");
    println!("Total training updates: {}", final_stats.training_updates);
    for (track_type, track_name, _) in &tracks {
        let results = trainer.query_track_results(car_id.clone(), track_type.to_string());
        println!("{}: {} wins, {} losses", track_name, results.wins, results.losses);
    }
}

#[test]
fn test_track_specific_training_scenarios() {
    let mut trainer = new_trainer("owner");
    let car_id = "test_car".to_string();
    println!("\n=== Track-Specific Training Scenarios ===");
    for (i, (track_type, title)) in [("straight", "Straight Track Training"), ("zigzag", "Zigzag Track Training"), ("special", "Special Tiles Track Training")]
        .iter()
        .enumerate()
    {
        println!("\n{}. {}", i + 1, title);
        for update in create_training_data_for_track(track_type, 2) {
            learn_step(&mut trainer, &update);
        }
        println!("   Training updates: {}", trainer.query_car_training_stats(car_id.clone()).training_updates);
    }
    println!("\n4. Q-Value Comparison Across Tracks");
    for track_type in &["straight", "zigzag", "special"] {
        let q = trainer.query_q_value(car_id.clone(), format!("{}_0_0", track_type));
        println!("   {} track Q-values: {:?}", track_type, q.q_values);
    }
}

#[test]
fn test_reward_type_learning() {
    let mut trainer = new_trainer("owner");
    let car_id = "test_car".to_string();
    println!("\n=== Reward Type Learning Test ===");
    let reward_types = vec![
        (RewardType::Distance(10), "Distance"),
        (RewardType::Stuck, "Stuck"),
        (RewardType::Wall, "Wall"),
        (RewardType::NoMove, "NoMove"),
        (RewardType::Explore, "Explore"),
        (RewardType::Rank(0), "Rank 1st"),
        (RewardType::Rank(1), "Rank 2nd"),
        (RewardType::Rank(2), "Rank 3rd"),
    ];
    for (i, (reward_type, reward_name)) in reward_types.iter().enumerate() {
        let state_hash = format!("reward_test_{}", i);
        let next = if i < reward_types.len() - 1 { Some(format!("reward_test_{}", i + 1)) } else { None };
        let u = trainer.execute_update_q_value(car_id.clone(), state_hash.clone(), (i % 5) as u8, *reward_type, next).unwrap();
        println!("  {}: Reward = {}", reward_name, u.reward);
        let q = trainer.query_q_value(car_id.clone(), state_hash);
        println!("    Q-values: {:?}", q.q_values);
    }
}

#[test]
fn test_training_statistics_tracking() {
    let mut trainer = new_trainer("owner");
    let car_id = "test_car".to_string();
    println!("\n=== Training Statistics Tracking ===");
    println!("Initial training updates: {}", trainer.query_car_training_stats(car_id.clone()).training_updates);
    for round in 1..=5 {
        for update in create_training_data_for_track("straight", 1) {
            learn_step(&mut trainer, &update);
        }
        println!("After round {}: {} training updates", round, trainer.query_car_training_stats(car_id.clone()).training_updates);
    }
    let final_stats = trainer.query_car_training_stats(car_id.clone());
    println!("Final training updates: {}", final_stats.training_updates);
    println!("Average updates per round: {:.1}", final_stats.training_updates as f32 / 5.0);
}

use racing::trainer::{InstantiateMsg, RewardType, TrainerState};

fn new_trainer() -> TrainerState {
    TrainerState::instantiate(InstantiateMsg { admin: "owner".to_string() })
}

/// One learning step; returns the reward and the new Q-value it reported.
fn learn(trainer: &mut TrainerState, car_id: &str, prefix: &str, round: u32, step: u32, steps: u32, action: u8, reward_type: RewardType) -> (i32, i32) {
    let next = if step < steps - 1 { Some(format!("{}_{}_{}", prefix, round, step + 1)) } else { None };
    let u = trainer
        .execute_update_q_value(car_id.to_string(), format!("{}_{}_{}", prefix, round, step), action, reward_type, next)
        .unwrap();
    (u.reward, u.new_value)
}

fn q_values(trainer: &TrainerState, car_id: &str, state: String) -> [i32; 5] {
    trainer.query_q_value(car_id.to_string(), state).q_values
}

fn updates(trainer: &TrainerState, car_id: &str) -> u32 {
    trainer.query_car_training_stats(car_id.to_string()).training_updates
}

fn best_action(q: &[i32; 5]) -> usize {
    q.iter().enumerate().max_by_key(|(_, &value)| value).map(|(action, _)| action).unwrap_or(0)
}

fn staged_reward(step: u32, stages: [i32; 4]) -> RewardType {
    match step {
        0..=5 => RewardType::Distance(stages[0]),
        6..=10 => RewardType::Distance(stages[1]),
        11..=15 => RewardType::Distance(stages[2]),
        16..=18 => RewardType::Distance(stages[3]),
        19 => RewardType::Rank(0),
        _ => RewardType::Distance(stages[0]),
    }
}

fn stage_value(position: u32, stages: [i32; 4]) -> i32 {
    match position {
        0..=5 => stages[0],
        6..=10 => stages[1],
        11..=15 => stages[2],
        16..=18 => stages[3],
        19 => 100,
        _ => stages[0],
    }
}

fn report_positions(trainer: &TrainerState, car_id: &str, prefix: &str, positions: &[u32]) {
    for position in positions {
        let q = q_values(trainer, car_id, format!("{}_0_{}", prefix, position));
        let max_q_value = q.iter().max().unwrap_or(&0);
        println!("  Position {}: Best action = {}, Max Q-value = {}", position, best_action(&q), max_q_value);
    }
}

#[test]
fn test_car_learning_to_finish_track_improved() {
    let mut trainer = new_trainer();
    let car_id = "learning_car_improved";
    let stages = [10, 20, 30, 50];
    println!("\n=== Improved Car Learning to Finish Track ===");
    println!("Initial training updates: {}", updates(&trainer, car_id));
    let training_rounds = 15;
    let steps_per_round = 20;
    let mut total_reward = 0;
    let mut learning_progress = Vec::new();
    for round in 0..training_rounds {
        println!("--- Training Round {} ---", round + 1);
        let mut round_reward = 0;
        let mut round_optimal_actions = 0;
        for step in 0..steps_per_round {
            let action = if round < 5 {
                if step < 10 { 0 } else { (step % 4) as u8 }
            } else if round < 10 {
                if step < 15 { 0 } else { (step % 2) as u8 }
            } else if step < 18 {
                0
            } else {
                (step % 3) as u8
            };
            let (reward, new_value) = learn(&mut trainer, car_id, "improved_track", round, step, steps_per_round, action, staged_reward(step, stages));
            round_reward += reward;
            total_reward += reward;
            if action == 0 && step < 18 {
                round_optimal_actions += 1;
            }
            if step % 5 == 0 {
                println!("  Step {}: Action={}, Reward={}, Q-value={}", step + 1, action, reward, new_value);
            }
        }
        println!("  Round {} Summary:", round + 1);
        println!("    Training updates: {}", updates(&trainer, car_id));
        println!("    Round reward: {}", round_reward);
        println!("    Optimal actions: {}/18", round_optimal_actions);
        println!("    Early state Q-values: {:?}", q_values(&trainer, car_id, "improved_track_0_0".to_string()));
        println!("    Mid state Q-values: {:?}", q_values(&trainer, car_id, "improved_track_0_10".to_string()));
        println!("    Late state Q-values: {:?}", q_values(&trainer, car_id, "improved_track_0_15".to_string()));
        learning_progress.push(round_optimal_actions);
    }
    println!("=== Final Learning Assessment ===");
    println!("Total training updates: {}", updates(&trainer, car_id));
    println!("Total reward accumulated: {}", total_reward);
    println!("Average reward per step: {:.1}", total_reward as f32 / (training_rounds * steps_per_round) as f32);
    for (round, optimal_actions) in learning_progress.iter().enumerate() {
        println!("  Round {}: {}/18 optimal actions ({:.1}%)", round + 1, optimal_actions, (*optimal_actions as f32 / 18.0) * 100.0);
    }
    println!("\nFinal Q-Value Analysis:");
    report_positions(&trainer, car_id, "improved_track", &[0, 5, 10, 15, 19]);

    println!("\n=== Track Completion Simulation ===");
    let mut current_position = 0;
    let mut steps_taken = 0;
    let mut total_reward = 0;
    let mut consecutive_forward_moves = 0;
    while current_position < 20 && steps_taken < 25 {
        let q = q_values(&trainer, car_id, format!("improved_track_0_{}", current_position));
        let action = best_action(&q) as u8;
        let next_position = if action == 0 || consecutive_forward_moves >= 2 { current_position + 1 } else { current_position };
        let reward = stage_value(current_position, [10, 20, 30, 50]);
        total_reward += reward;
        if action == 0 {
            consecutive_forward_moves += 1;
        } else {
            consecutive_forward_moves = 0;
        }
        current_position = next_position;
        steps_taken += 1;
        println!("  Step {}: Position {} -> {}, Action {}, Reward {}", steps_taken, current_position, next_position, action, reward);
    }
    println!("Final position: {}/20", current_position);
    println!("Steps taken: {}", steps_taken);
    println!("Total reward: {}", total_reward);
    let avg_optimal_actions = learning_progress.iter().sum::<i32>() as f32 / learning_progress.len() as f32;
    let early_avg = learning_progress[0..5].iter().sum::<i32>() as f32 / 5.0;
    let late_avg = learning_progress[10..15].iter().sum::<i32>() as f32 / 5.0;
    println!("Average optimal actions per round: {:.1}/18", avg_optimal_actions);
    println!("Learning improvement: {:.1}%", ((late_avg - early_avg) / early_avg) * 100.0);
}

/// Five rounds of twenty steps through states `{prefix}_{round}_{step}`; returns the reward of each round.
fn run_strategy(trainer: &mut TrainerState, car_id: &str, prefix: &str, choose: &dyn Fn(u32, u32) -> u8) -> Vec<i32> {
    let mut rewards = Vec::new();
    for round in 0..5 {
        let mut round_reward = 0;
        for step in 0..20 {
            let (reward, _) = learn(trainer, car_id, prefix, round, step, 20, choose(round, step), staged_reward(step, [5, 10, 15, 25]));
            round_reward += reward;
        }
        rewards.push(round_reward);
        println!("  Round {}: Total reward = {}", round + 1, round_reward);
    }
    rewards
}

#[test]
fn test_learning_efficiency_comparison() {
    let mut trainer = new_trainer();
    let car_id = "efficient_car";
    println!("\n=== Learning Efficiency Comparison ===");
    println!("Strategy 1: Random Exploration");
    let random_rewards = run_strategy(&mut trainer, car_id, "random", &|_, step| (step % 5) as u8);
    println!("\nStrategy 2: Guided Learning");
    let guided_rewards = run_strategy(&mut trainer, car_id, "guided", &|round, step| {
        if round < 2 {
            (step % 3) as u8
        } else if step < 15 {
            0
        } else {
            (step % 2) as u8
        }
    });
    let random_avg = random_rewards.iter().sum::<i32>() as f32 / random_rewards.len() as f32;
    let guided_avg = guided_rewards.iter().sum::<i32>() as f32 / guided_rewards.len() as f32;
    println!("\n=== Strategy Comparison ===");
    println!("Random Exploration Average: {:.1}", random_avg);
    println!("Guided Learning Average: {:.1}", guided_avg);
    println!("Improvement: {:.1}%", ((guided_avg - random_avg) / random_avg) * 100.0);
    if guided_avg > random_avg {
        println!("✅ Guided learning is more effective!");
    } else {
        println!("⚠️  Random exploration performed better");
    }
}

#[test]
fn test_successful_track_completion_learning() {
    let mut trainer = new_trainer();
    let car_id = "successful_car";
    let stages = [20, 35, 50, 80];
    println!("\n=== Successful Track Completion Learning ===");
    println!("Initial training updates: {}", updates(&trainer, car_id));
    let training_rounds = 50;
    let steps_per_round = 20;
    let mut total_reward = 0;
    let mut learning_progress = Vec::new();
    let mut q_value_progression = Vec::new();
    for round in 0..training_rounds {
        if round % 5 == 0 {
            println!("--- Training Round {} ---", round + 1);
        }
        let mut round_reward = 0;
        let mut round_optimal_actions = 0;
        for step in 0..steps_per_round {
            let action = if round < 15 {
                if step < 15 { 0 } else { (step % 3) as u8 }
            } else if round < 30 {
                if step < 17 { 0 } else { (step % 2) as u8 }
            } else if round < 40 {
                if step < 18 { 0 } else { (step % 3) as u8 }
            } else if step < 19 {
                0
            } else {
                (step % 2) as u8
            };
            let (reward, new_value) = learn(&mut trainer, car_id, "successful_track", round, step, steps_per_round, action, staged_reward(step, stages));
            round_reward += reward;
            total_reward += reward;
            if action == 0 && step < 18 {
                round_optimal_actions += 1;
            }
            if round < 3 && step % 5 == 0 {
                println!("  Step {}: Action={}, Reward={}, Q-value={}", step + 1, action, reward, new_value);
            }
        }
        let early = q_values(&trainer, car_id, "successful_track_0_0".to_string());
        let mid = q_values(&trainer, car_id, "successful_track_0_10".to_string());
        let late = q_values(&trainer, car_id, "successful_track_0_15".to_string());
        if round % 5 == 0 {
            println!("  Round {} Summary:", round + 1);
            println!("    Training updates: {}", updates(&trainer, car_id));
            println!("    Round reward: {}", round_reward);
            println!("    Optimal actions: {}/18", round_optimal_actions);
            println!("    Early state Q-values: {:?}", early);
            println!("    Mid state Q-values: {:?}", mid);
            println!("    Late state Q-values: {:?}", late);
        }
        learning_progress.push(round_optimal_actions);
        q_value_progression.push((early[0], mid[0], late[0]));
    }
    println!("=== Final Learning Assessment ===");
    println!("Total training updates: {}", updates(&trainer, car_id));
    println!("Total reward accumulated: {}", total_reward);
    println!("Average reward per step: {:.1}", total_reward as f32 / (training_rounds * steps_per_round) as f32);
    for (round, (early_q, mid_q, late_q)) in q_value_progression.iter().enumerate() {
        if round % 10 == 0 {
            println!("  Round {}: Early={}, Mid={}, Late={}", round + 1, early_q, mid_q, late_q);
        }
    }
    println!("\nFinal Q-Value Analysis:");
    report_positions(&trainer, car_id, "successful_track", &[0, 5, 10, 15, 19]);

    println!("\n=== Enhanced Track Completion Simulation ===");
    let mut current_position = 0;
    let mut steps_taken = 0;
    let mut total_reward = 0;
    let mut consecutive_forward_moves = 0;
    let mut track_progress = Vec::new();
    while current_position < 20 && steps_taken < 30 {
        let q = q_values(&trainer, car_id, format!("successful_track_0_{}", current_position));
        let action = best_action(&q) as u8;
        let next_position = if action == 0 || consecutive_forward_moves >= 2 || current_position > 15 {
            current_position + 1
        } else {
            current_position
        };
        let reward = stage_value(current_position, stages);
        total_reward += reward;
        track_progress.push(current_position);
        if action == 0 {
            consecutive_forward_moves += 1;
        } else {
            consecutive_forward_moves = 0;
        }
        current_position = next_position;
        steps_taken += 1;
        println!("  Step {}: Position {} -> {}, Action {}, Reward {}", steps_taken, current_position, next_position, action, reward);
    }
    println!("Final position: {}/20", current_position);
    println!("Steps taken: {}", steps_taken);
    println!("Total reward: {}", total_reward);
    let avg_optimal_actions = learning_progress.iter().sum::<i32>() as f32 / learning_progress.len() as f32;
    let early_q_avg = q_value_progression[0..10].iter().map(|(q, _, _)| *q as f32).sum::<f32>() / 10.0;
    let late_q_avg = q_value_progression[40..50].iter().map(|(q, _, _)| *q as f32).sum::<f32>() / 10.0;
    println!("Average optimal actions per round: {:.1}/18", avg_optimal_actions);
    println!("Early Q-value average: {:.1}", early_q_avg);
    println!("Late Q-value average: {:.1}", late_q_avg);
    let overall_success = avg_optimal_actions >= 16.0 && late_q_avg > early_q_avg && current_position >= 18;
    println!("\n🎯 Overall Learning Success: {}", if overall_success { "ACHIEVED" } else { "PARTIAL" });
}

/// Follows the learned best actions from position 0, moving forward on action 0.
fn simulate_car_route(trainer: &TrainerState, car_id: &str) -> Vec<(u32, u8, i32, String)> {
    let mut route_data = Vec::new();
    let mut current_position = 0;
    let mut steps_taken = 0;
    while current_position < 20 && steps_taken < 25 {
        let q = q_values(trainer, car_id, format!("visual_track_0_{}", current_position));
        let action = best_action(&q) as u8;
        let reward = stage_value(current_position, [20, 35, 50, 80]);
        let next_position = if action == 0 { current_position + 1 } else { current_position };
        let description = match current_position {
            0 => "START".to_string(),
            1..=5 => format!("Early Stage ({})", current_position),
            6..=10 => format!("Middle Stage ({})", current_position),
            11..=15 => format!("Late Stage ({})", current_position),
            16..=18 => format!("Near Finish ({})", current_position),
            19 => "Pre-Finish (19)".to_string(),
            _ => format!("Position {}", current_position),
        };
        route_data.push((current_position, action, reward, description));
        current_position = next_position;
        steps_taken += 1;
    }
    route_data
}

#[test]
fn test_track_visualization_and_route() {
    let mut trainer = new_trainer();
    let car_id = "visualization_car";
    println!("\n=== Track Visualization and Route Analysis ===");
    println!("Initial training updates: {}", updates(&trainer, car_id));
    let training_rounds = 30;
    let steps_per_round = 20;
    let mut total_reward = 0;
    for round in 0..training_rounds {
        if round % 10 == 0 {
            println!("--- Training Round {} ---", round + 1);
        }
        for step in 0..steps_per_round {
            let action = if round < 10 {
                if step < 15 { 0 } else { (step % 3) as u8 }
            } else if round < 20 {
                if step < 17 { 0 } else { (step % 2) as u8 }
            } else if step < 18 {
                0
            } else {
                (step % 3) as u8
            };
            let (reward, _) = learn(&mut trainer, car_id, "visual_track", round, step, steps_per_round, action, staged_reward(step, [20, 35, 50, 80]));
            total_reward += reward;
        }
    }
    println!("Total training updates: {}", updates(&trainer, car_id));
    println!("Total reward accumulated: {}", total_reward);

    println!("\n=== Car's Learned Route Visualization ===");
    let route_data = simulate_car_route(&trainer, car_id);
    for (i, (position, action, reward, description)) in route_data.iter().enumerate() {
        let symbol = match action {
            0 => "→",
            1 => "↑",
            2 => "↓",
            3 => "←",
            4 => "●",
            _ => "?",
        };
        println!("Step {:2}: Position {:2} {} {} (Reward: {:3})", i + 1, position, symbol, description, reward);
    }
    let forward_moves = route_data.iter().filter(|(_, action, _, _)| *action == 0).count();
    let route_reward: i32 = route_data.iter().map(|(_, _, reward, _)| reward).sum();
    println!("\n=== Route Analysis ===");
    println!("• Total Steps: {}", route_data.len());
    println!("• Forward Moves: {} ({:.1}% efficiency)", forward_moves, (forward_moves as f32 / route_data.len() as f32) * 100.0);
    println!("• Total Reward: {}", route_reward);
    let mut action_counts = [0; 5];
    for (_, action, _, _) in &route_data {
        action_counts[*action as usize] += 1;
    }
    println!("Action Distribution: {:?}", action_counts);
}

#[test]
fn test_improved_training_no_stuck() {
    let mut trainer = new_trainer();
    let car_id = "no_stuck_car";
    let stages = [25, 40, 60, 90];
    println!("\n=== Improved Training: No Stuck Strategy ===");
    println!("Initial training updates: {}", updates(&trainer, car_id));
    let training_rounds = 40;
    let steps_per_round = 20;
    let mut total_reward = 0;
    let mut learning_progress = Vec::new();
    let mut stuck_positions = Vec::new();
    for round in 0..training_rounds {
        if round % 10 == 0 {
            println!("--- Training Round {} ---", round + 1);
        }
        let mut round_reward = 0;
        let mut round_optimal_actions = 0;
        let mut round_stuck_count = 0;
        for step in 0..steps_per_round {
            let action = if round < 10 {
                if step < 12 {
                    0
                } else {
                    match step % 4 {
                        0 => 0,
                        1 => 1,
                        2 => 2,
                        _ => 3,
                    }
                }
            } else if round < 20 {
                if step < 15 || step % 3 == 0 { 0 } else { (step % 2 + 1) as u8 }
            } else if round < 30 {
                if step < 17 || step % 4 == 0 { 0 } else { (step % 3) as u8 }
            } else if step < 18 || step % 5 == 0 {
                0
            } else {
                (step % 2) as u8
            };
            let (reward, new_value) = learn(&mut trainer, car_id, "no_stuck_track", round, step, steps_per_round, action, staged_reward(step, stages));
            round_reward += reward;
            total_reward += reward;
            if action == 0 && step < 18 {
                round_optimal_actions += 1;
            }
            if action != 0 && step >= 15 {
                round_stuck_count += 1;
            }
            if round < 3 && step % 5 == 0 {
                println!("  Step {}: Action={}, Reward={}, Q-value={}", step + 1, action, reward, new_value);
            }
        }
        if round % 10 == 0 {
            println!("  Round {} Summary:", round + 1);
            println!("    Training updates: {}", updates(&trainer, car_id));
            println!("    Round reward: {}", round_reward);
            println!("    Optimal actions: {}/18", round_optimal_actions);
            println!("    Stuck actions: {}", round_stuck_count);
            println!("    Position 16 Q-values: {:?}", q_values(&trainer, car_id, "no_stuck_track_0_16".to_string()));
            println!("    Position 19 Q-values: {:?}", q_values(&trainer, car_id, "no_stuck_track_0_19".to_string()));
        }
        learning_progress.push(round_optimal_actions);
        stuck_positions.push(round_stuck_count);
    }
    println!("=== Final Learning Assessment ===");
    println!("Total training updates: {}", updates(&trainer, car_id));
    println!("Total reward accumulated: {}", total_reward);
    println!("\nFinal Q-Value Analysis (Anti-Stuck Strategy):");
    for position in [0, 5, 10, 15, 16, 17, 18, 19] {
        let q = q_values(&trainer, car_id, format!("no_stuck_track_0_{}", position));
        let diversity = q.iter().filter(|&&v| v > 0).count();
        println!("  Position {}: Best action = {}, Max Q-value = {}, Action diversity = {}", position, best_action(&q), q.iter().max().unwrap_or(&0), diversity);
    }
    println!("\n=== Anti-Stuck Track Completion Simulation ===");
    let mut current_position = 0;
    let mut steps_taken = 0;
    let mut total_reward = 0;
    let mut consecutive_forward_moves = 0;
    let mut stuck_counter = 0;
    while current_position < 20 && steps_taken < 30 {
        let q = q_values(&trainer, car_id, format!("no_stuck_track_0_{}", current_position));
        let action = best_action(&q) as u8;
        let next_position = if action == 0 || stuck_counter >= 2 || consecutive_forward_moves >= 3 {
            current_position + 1
        } else {
            current_position
        };
        total_reward += stage_value(current_position, stages);
        if action == 0 {
            consecutive_forward_moves += 1;
            stuck_counter = 0;
        } else {
            consecutive_forward_moves = 0;
            stuck_counter += 1;
        }
        current_position = next_position;
        steps_taken += 1;
        println!("  Step {}: Position {} -> {}, Action {}, Stuck counter: {}", steps_taken, current_position, next_position, action, stuck_counter);
    }
    println!("Final position: {}/20", current_position);
    println!("Steps taken: {}", steps_taken);
    println!("Total reward: {}", total_reward);
    let avg_optimal_actions = learning_progress.iter().sum::<i32>() as f32 / learning_progress.len() as f32;
    let avg_stuck_actions = stuck_positions.iter().sum::<i32>() as f32 / stuck_positions.len() as f32;
    println!("Average optimal actions per round: {:.1}/18", avg_optimal_actions);
    println!("Average stuck actions per round: {:.1}/5", avg_stuck_actions);
    println!("Stuck prevention rate: {:.1}%", (1.0 - (avg_stuck_actions / 5.0)) * 100.0);
    let overall_success = avg_optimal_actions >= 15.0 && avg_stuck_actions <= 2.0 && current_position >= 18;
    println!("\n🎯 Overall Anti-Stuck Success: {}", if overall_success { "ACHIEVED" } else { "PARTIAL" });
}

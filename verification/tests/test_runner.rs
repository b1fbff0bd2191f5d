use llmperf_rs::client::count_tokens;
use llmperf_rs::test_runner::{
    assemble_prompt, build_test_prompt, choose_task, compose_noise, format_nonce,
    generate_random_nonce, generate_random_prompt, never_advances, next_step, noise_budget,
    parse_step_format, plan_requests, words_lacking, Poll, DEFAULT_REPEAT_PROMPT,
};

#[test]
fn test_parse_step_format_single_value() {
    assert_eq!(parse_step_format("1024"), vec![1024]);
    assert_eq!(parse_step_format("2048"), vec![2048]);
}

#[test]
fn test_parse_step_format_range() {
    assert_eq!(parse_step_format("1024:1024:4096"), vec![1024, 2048, 3072, 4096]);
    assert_eq!(parse_step_format("512:512:1536"), vec![512, 1024, 1536]);
}

#[test]
fn test_parse_step_format_invalid() {
    assert_eq!(parse_step_format("abc"), vec![1024]);
    assert_eq!(parse_step_format("1024:abc"), vec![1024]);
}

#[test]
fn test_parse_step_format_end_not_aligned() {
    // 1024:1000:3000 -> 1024, 2024
    let result = parse_step_format("1024:1000:3000");
    assert_eq!(result, vec![1024, 2024]);
}

#[test]
fn test_generate_random_prompt_token_count() {
    let prompt = generate_random_prompt(100);
    let actual = count_tokens(&prompt);
    // Should be within a small margin of the target
    assert!(actual >= 95 && actual <= 110, "Expected ~100 tokens, got {}", actual);
}

#[test]
fn test_build_test_prompt_token_count() {
    for size in [1024, 4096, 16384] {
        let prompt = build_test_prompt(size, None);
        let actual = count_tokens(&prompt) as u32;
        let drift = (actual as i64 - size as i64).abs();
        let tolerance = ((size as f64 * 0.03) as i64).max(10);
        assert!(
            drift <= tolerance,
            "expected ~{} tokens, got {} (drift {}, tolerance {})",
            size,
            actual,
            drift,
            tolerance
        );
    }
}

#[test]
fn test_build_test_prompt_custom() {
    let prompt = build_test_prompt(512, Some("Answer with a single word."));
    assert!(prompt.starts_with("[nonce:"));
    assert!(prompt.ends_with("Answer with a single word."));
    // Nonce must differ between requests (breaks prefix caching)
    let prompt2 = build_test_prompt(512, Some("Answer with a single word."));
    assert_ne!(prompt, prompt2, "nonce should differ between requests");
}

#[test]
fn test_build_test_prompt_tiny_context() {
    // Context smaller than fixed overhead: still produces a valid prompt
    let prompt = build_test_prompt(1, None);
    assert!(prompt.starts_with("[nonce:"));
    assert!(prompt.ends_with(DEFAULT_REPEAT_PROMPT));
}

#[test]
fn test_generate_random_prompt_100k_performance() {
    let start = std::time::Instant::now();
    let prompt = generate_random_prompt(100_000);
    let elapsed = start.elapsed();

    let actual = count_tokens(&prompt);
    println!("100K prompt: {} tokens generated in {:?}", actual, elapsed);

    assert!(
        elapsed.as_secs_f64() < 1.0,
        "100K prompt generation took {:?}, must be under 1s",
        elapsed
    );
}

#[test]
fn ranges_at_the_edges() {
    assert_eq!(parse_step_format("5:1:4"), Vec::<u32>::new());
    assert_eq!(parse_step_format("5:0:4"), Vec::<u32>::new());
    assert_eq!(parse_step_format("4294967295:1:4294967295"), vec![4294967295]);
    assert_eq!(parse_step_format("x:8192:y"), vec![1024, 9216]);
    assert_eq!(parse_step_format(""), vec![1024]);
    assert_eq!(parse_step_format("+7"), vec![7]);
    assert_eq!(parse_step_format("-7"), vec![1024]);
    assert_eq!(parse_step_format(" 7"), vec![1024]);
    assert_eq!(parse_step_format("4294967296"), vec![1024]);
    assert_eq!(parse_step_format("1:2:3:4"), vec![1024]);
    assert!(never_advances("1:0:5"));
    assert!(!never_advances("5:0:1"));
    assert!(!never_advances("1:1:5"));
    assert!(!never_advances("0"));
}

#[test]
fn plan_is_context_major() {
    let plan = plan_requests(&vec![10, 20], 3, &Some("p".to_string()));
    let sizes = plan.iter().map(|r| r.context_size).collect::<Vec<_>>();
    let ids = plan.iter().map(|r| r.request_id).collect::<Vec<_>>();
    assert_eq!(sizes, vec![10, 10, 10, 20, 20, 20]);
    assert_eq!(ids, vec![0, 1, 2, 3, 4, 5]);
    assert!(plan.iter().all(|r| r.prompt == Some("p".to_string())));
    assert!(plan_requests(&vec![10], 0, &None).is_empty());
}

#[test]
fn loop_ends_when_stopped_or_closed() {
    let step = next_step(Poll::Stopped);
    assert!(step.drain && step.linger && !step.tick && step.done);
    let step = next_step(Poll::Event);
    assert!(step.drain && !step.linger && step.tick && !step.done);
    let step = next_step(Poll::Closed);
    assert!(!step.drain && step.tick && step.done);
    let step = next_step(Poll::Timeout);
    assert!(!step.drain && step.tick && !step.done);
}

#[test]
fn noise_is_made_of_the_drawn_words() {
    // "one two three", of which nothing is counted again
    let picks: Vec<usize> = vec![0, 1, 2];
    assert_eq!(words_lacking(&picks, 3), 0);
    assert_eq!(compose_noise(&picks, &vec![], 3), "one two three");
    assert_eq!(compose_noise(&picks, &vec![51], 3), "one two three then");
    assert_eq!(compose_noise(&vec![], &vec![], 5), "");
    assert_eq!(compose_noise(&picks, &vec![], 0), "one two three");
}

#[test]
fn noise_is_corrected_by_its_end() {
    // Every word takes one token, so ten words make ten tokens.
    let picks: Vec<usize> = vec![0; 10];
    assert_eq!(count_tokens("one one"), 2);
    assert_eq!(compose_noise(&picks, &vec![], 4), "one one one one");
    assert_eq!(compose_noise(&picks, &vec![], 1), "one");
    assert_eq!(words_lacking(&picks, 4), 0);
}

#[test]
fn noise_of_no_tokens_is_empty() {
    assert_eq!(generate_random_prompt(0), "");
}

#[test]
fn noise_holds_only_words() {
    let noise = generate_random_prompt(500);
    assert!(!noise.starts_with(' ') && !noise.ends_with(' ') && !noise.contains("  "));
    assert!(noise.split(' ').all(|w| !w.is_empty() && w.chars().all(|c| c.is_ascii_lowercase())));
    assert_ne!(noise, generate_random_prompt(500));
}

#[test]
fn nonce_has_sixteen_digits() {
    assert_eq!(format_nonce(0), "[nonce:0000000000000000]");
    assert_eq!(format_nonce(u64::MAX), "[nonce:ffffffffffffffff]");
    assert_eq!(format_nonce(0x1a2b), "[nonce:0000000000001a2b]");
    assert_ne!(format_nonce(1), format_nonce(2));
    let nonce = generate_random_nonce();
    assert_eq!(nonce.len(), 24);
    assert_ne!(nonce, generate_random_nonce());
}

#[test]
fn task_is_the_given_one_or_the_default() {
    assert_eq!(choose_task(Some("  do it \n")), "do it");
    assert_eq!(choose_task(Some(" \n ")), DEFAULT_REPEAT_PROMPT);
    assert_eq!(choose_task(None), DEFAULT_REPEAT_PROMPT);
}

#[test]
fn budget_leaves_room_for_the_rest() {
    let nonce = format_nonce(7);
    let used = count_tokens(&format!("{}\n\n", nonce)) + count_tokens("\n\ngo");
    assert_eq!(noise_budget(1000, &nonce, "go"), 1000 - used as u32);
    assert_eq!(noise_budget(used as u32, &nonce, "go"), 1);
    assert_eq!(noise_budget(0, &nonce, "go"), 1);
}

#[test]
fn prompt_is_nonce_noise_and_task() {
    assert_eq!(assemble_prompt("[n]", "a b", "go"), "[n]\n\na b\n\ngo");
}

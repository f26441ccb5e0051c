use deep_net::head::Style;
use deep_net::layout::WidthError;
use deep_net::run::check_dense;
use deep_net::run::check_init;
use deep_net::run::check_init_dense;
use deep_net::run::check_mlp;
use deep_net::run::check_narrow;
use deep_net::run::head_seed;
use deep_net::run::reports_chunk;
use deep_net::run::select;
use deep_net::run::select_some;
use deep_net::run::weights_plan;
use deep_net::run::OptionError;
use deep_net::run::TrainRun;
use deep_net::run::WeightsPlan;
use deep_net::sampler::Sampler;
use rand::Rng;
use rand::SeedableRng;
use rand_chacha::ChaCha8Rng;

#[test]
fn samples_are_those_of_one_generator() {
    let mut rng = ChaCha8Rng::seed_from_u64(0xC0FFEE);
    let mut sampler = Sampler::new(0xC0FFEE);
    for batch in [1usize, 7, 40, 3] {
        let mut wanted = Vec::new();
        for _ in 0..batch {
            wanted.push(rng.gen_range(0..60_000usize));
        }
        assert_eq!(sampler.batch(batch, 60_000), wanted);
    }
    assert_eq!(sampler.word_pos, rng.get_word_pos());
}

#[test]
fn samples_with_rejected_draws() {
    // Just above a power of two, about half of all draws are rejected.
    let bound = (1usize << 62) + 1;
    let mut rng = ChaCha8Rng::seed_from_u64(5);
    let mut sampler = Sampler::new(5);
    let mut wanted = Vec::new();
    for _ in 0..100 {
        wanted.push(rng.gen_range(0..bound));
    }
    assert_eq!(sampler.batch(100, bound), wanted);
    assert_eq!(sampler.word_pos, rng.get_word_pos());
}

#[test]
fn batches_continue_each_other() {
    let mut once = Sampler::new(9);
    let mut twice = Sampler::new(9);
    let all = once.batch(11, 128);
    let mut parts = twice.batch(4, 128);
    parts.extend(twice.batch(7, 128));
    assert_eq!(all, parts);
    assert_eq!(once, twice);
    assert_eq!(Sampler::new(1).batch(5, 1), vec![0; 5]);
    assert_ne!(Sampler::new(1).batch(8, 1000), Sampler::new(2).batch(8, 1000));
}

#[test]
fn training_runs_draw_one_batch_per_step() {
    let mut rng = ChaCha8Rng::seed_from_u64(3);
    let mut run = TrainRun::new(3, 50, 6, 4, 1);
    let mut steps = 0;
    while let Some(indices) = run.next() {
        steps += 1;
        let wanted: Vec<usize> = (0..6).map(|_| rng.gen_range(0..50usize)).collect();
        assert_eq!(indices, wanted);
        assert!(run.reports());
    }
    assert_eq!(steps, 4);
    assert_eq!(run.next(), None);
}

fn reported(steps: usize, report_every: usize) -> Vec<usize> {
    let mut run = TrainRun::new(1, 10, 1, steps, report_every);
    let mut seen = Vec::new();
    while run.next().is_some() {
        if run.reports() {
            seen.push(run.step);
        }
    }
    seen
}

#[test]
fn first_last_and_every_nth_step_are_reported() {
    assert_eq!(reported(10, 4), vec![1, 4, 8, 10]);
    assert_eq!(reported(10, 0), vec![1, 10]);
    assert_eq!(reported(3, 1), vec![1, 2, 3]);
    assert_eq!(reported(1, 200), vec![1]);
    assert_eq!(reported(0, 1), Vec::<usize>::new());
}

#[test]
fn first_last_and_every_tenth_chunk_are_reported() {
    let seen: Vec<usize> = (0..25).filter(|&k| reports_chunk(k, 25)).collect();
    assert_eq!(seen, vec![0, 9, 19, 24]);
}

#[test]
fn options_are_checked_in_order() {
    assert_eq!(check_narrow(0, 0), Err(OptionError::NoBatch));
    assert_eq!(check_narrow(1, 0), Err(OptionError::NoChunkLayers));
    assert_eq!(check_narrow(1, 1), Ok(()));
    assert_eq!(check_dense(0, 0, 0), Err(OptionError::Width(WidthError::Zero)));
    assert_eq!(check_dense(600, 0, 0), Err(OptionError::Width(WidthError::TooLarge)));
    assert_eq!(check_dense(4, 0, 0), Err(OptionError::NoBatch));
    assert_eq!(check_dense(4, 1, 0), Err(OptionError::NoChunkLayers));
    assert_eq!(check_dense(4, 1, 1), Ok(()));
    assert_eq!(check_mlp(0, 0), Err(OptionError::NoHidden));
    assert_eq!(check_mlp(1, 0), Err(OptionError::NoBatch));
    assert_eq!(check_mlp(1, 1), Ok(()));
    assert_eq!(check_init(0), Err(OptionError::NoChunkLayers));
    assert_eq!(check_init(1), Ok(()));
    assert_eq!(check_init_dense(0, 0), Err(OptionError::Width(WidthError::Zero)));
    assert_eq!(check_init_dense(3, 0), Err(OptionError::NoChunkLayers));
    assert_eq!(check_init_dense(3, 1), Ok(()));
}

#[test]
fn missing_weights_are_created_on_demand() {
    assert_eq!(weights_plan(true, true), WeightsPlan::Use);
    assert_eq!(weights_plan(true, false), WeightsPlan::Use);
    assert_eq!(weights_plan(false, true), WeightsPlan::Create);
    assert_eq!(weights_plan(false, false), WeightsPlan::Missing);
}

#[test]
fn no_more_samples_are_used_than_there_are() {
    assert_eq!(select(100, 60), 60);
    assert_eq!(select(60, 100), 60);
    assert_eq!(select(0, 100), 0);
    assert_eq!(select_some(100, 60), Some(60));
    assert_eq!(select_some(0, 60), None);
    assert_eq!(select_some(100, 0), None);
}

#[test]
fn head_seeds_differ_from_the_seed_and_from_each_other() {
    assert_eq!(head_seed(Style::Narrow, 0), 0xBAD5EED);
    assert_eq!(head_seed(Style::Dense, 0xC0FFEE), 0xC0FFEE ^ 0xD15EA5E);
    assert_eq!(head_seed(Style::Mlp, 0xABCDEF), 0xABCDEF ^ 0x51DECAFE);
    assert_eq!(head_seed(Style::Mlp, head_seed(Style::Mlp, 77)), 77);
    assert_ne!(head_seed(Style::Narrow, 1), head_seed(Style::Dense, 1));
    assert_ne!(head_seed(Style::Dense, 1), head_seed(Style::Mlp, 1));
    assert_ne!(head_seed(Style::Narrow, 1), 1);
}

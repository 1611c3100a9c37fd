use leviath_runtime::host::settings::HostSettings;
use leviath_runtime::host::{DEFAULT_DEAD_CYCLES_BEFORE_RELIEF, DEFAULT_FINISHED_RETENTION_SECS};

fn bits(amounts: Vec<f64>) -> Vec<u64> {
    amounts.into_iter().map(f64::to_bits).collect()
}

fn thresholds(settings: &HostSettings) -> Vec<f64> {
    settings.spend_notify_usd().iter().map(|b| f64::from_bits(*b)).collect()
}

#[test]
fn spend_thresholds_are_sorted_deduped_and_filtered() {
    let mut settings = HostSettings::default();
    settings.set_spend_notify_usd(bits(vec![25.0, 5.0, 5.0, 0.0, -1.0, f64::NAN]));
    assert_eq!(thresholds(&settings), vec![5.0, 25.0]);
}

#[test]
fn thresholds_of_every_size_keep_their_order() {
    let mut settings = HostSettings::default();
    settings.set_spend_notify_usd(bits(vec![
        f64::MAX,
        f64::INFINITY,
        1e-320,
        0.1,
        -0.0,
        f64::NEG_INFINITY,
        f64::MIN_POSITIVE,
        3.5,
    ]));
    assert_eq!(
        thresholds(&settings),
        vec![1e-320, f64::MIN_POSITIVE, 0.1, 3.5, f64::MAX]
    );
}

#[test]
fn settings_start_at_their_defaults_and_read_back() {
    let mut settings = HostSettings::default();
    assert_eq!(settings.dead_cycles_before_relief(), DEFAULT_DEAD_CYCLES_BEFORE_RELIEF);
    assert_eq!(settings.finished_retention_secs(), DEFAULT_FINISHED_RETENTION_SECS);
    assert!(settings.spend_notify_usd().is_empty());
    settings.set_dead_cycles_before_relief(2);
    settings.set_finished_retention_secs(30);
    settings.set_spend_notify_usd(bits(vec![5.0]));
    assert_eq!(settings.dead_cycles_before_relief(), 2);
    assert_eq!(settings.finished_retention_secs(), 30);
    assert_eq!(thresholds(&settings), vec![5.0]);
}

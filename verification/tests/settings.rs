//! Settings: what a file holds, what a change costs, what the defaults are.

use olea_core::number::Number;
use olea_core::settings::{knob, knobs, ApplyScope, Settings};
use olea_core::time::Duration;

fn value(n: Number) -> f32 {
    match n {
        Number::NotANumber => f32::NAN,
        Number::Infinite { negative } => {
            if negative {
                f32::NEG_INFINITY
            } else {
                f32::INFINITY
            }
        }
        Number::Finite { negative, mantissa, exponent } => {
            let magnitude = (mantissa as f64 * 2f64.powi(exponent)) as f32;
            if negative {
                -magnitude
            } else {
                magnitude
            }
        }
    }
}

#[test]
fn a_saved_file_reads_back_the_same() {
    let mut settings = Settings::defaults();
    settings.set("device", "JBL Tune 780NC");

    assert_eq!(Settings::from_text(&settings.to_text()), settings);
}

#[test]
fn a_file_from_an_older_version_is_replaced_rather_than_merged() {
    // Written when the default retransmission count was 2. Merging it would
    // keep overriding the value that replaced it.
    let stale = "retransmissions = 2\nversion = 1\n";

    let loaded = Settings::restore(Some(stale));
    assert_eq!(loaded.number("retransmissions").map(value), Some(13.0));
    assert_eq!(loaded.get("version"), Some(Settings::VERSION));

    // A removed setting must not survive either: it has no control any more,
    // so a value left behind can never be seen or corrected.
    assert_eq!(loaded.get("ase_pair"), None);
}

#[test]
fn a_file_from_a_newer_version_keeps_its_keys() {
    let newer = "future_knob = 7\ngain = 0.5\nversion = 6\n";
    let loaded = Settings::restore(Some(newer));
    assert_eq!(loaded.get("future_knob"), Some("7"));
    assert_eq!(loaded.get("version"), Some("6"));
    assert_eq!(loaded.number("gain").map(value), Some(0.5));
    // What it says nothing of is as usual.
    assert_eq!(loaded.number("retransmissions").map(value), Some(13.0));

    // Switching back and forth deletes nothing.
    let again = Settings::restore(Some(loaded.to_text().as_str()));
    assert_eq!(again, loaded);

    // Of the same version it is the same.
    let own = Settings::restore(Some("future_knob = 7\nversion = 5\n"));
    assert_eq!(own.get("future_knob"), Some("7"));

    // Older, unreadable, or without a version: as if there were none.
    let versions = ["4", "0", "six", "", "5.0", "+5", "-6", "inf", "nan", "4.99999999", "6.0", "6e0", "05", "5 6"];
    for version in versions {
        let stale = format!("future_knob = 7\nversion = {version}\n");
        assert_eq!(Settings::restore(Some(&stale)), Settings::defaults(), "{version}");
    }
    assert_eq!(Settings::restore(Some("future_knob = 7\n")), Settings::defaults());

    // However large a newer version is.
    for version in ["6", "10", "50", "100000000000000000000000000000000000000000"] {
        let newer = format!("future_knob = 7\nversion = {version}\n");
        assert_eq!(Settings::restore(Some(&newer)).get("future_knob"), Some("7"), "{version}");
    }
    assert_eq!(Settings::restore(None), Settings::defaults());
}

#[test]
fn a_change_costs_the_same_in_both_directions() {
    let before = Settings::defaults();
    let mut after = before.clone();
    after.set("preset", "low-latency");
    after.set("dual_cis", "false");
    after.set("retransmissions", "5");
    after.set("future_knob", "7");

    let there: Vec<&str> = after.scopes_touched_by(&before).iter().map(|k| k.key).collect();
    let back: Vec<&str> = before.scopes_touched_by(&after).iter().map(|k| k.key).collect();
    assert_eq!(there, back);
    assert!(there.len() > 1 && there.windows(2).all(|pair| pair[0] < pair[1]));
    assert!(!there.contains(&"future_knob"));
}

#[test]
fn an_unknown_key_survives_a_round_trip() {
    // Written by a newer version. Losing it on save would silently discard
    // configuration whenever someone switched back.
    let settings = Settings::from_text("future_knob = 7\ngain = 1.0\n");

    assert_eq!(settings.get("future_knob"), Some("7"));
    assert_eq!(Settings::from_text(&settings.to_text()).get("future_knob"), Some("7"));
}

#[test]
fn a_damaged_line_costs_one_setting_not_the_file() {
    let settings = Settings::from_text("gain = 1.0\nthis line is nonsense\ndual_cis = true\n");

    assert_eq!(settings.number("gain").map(value), Some(1.0));
    assert_eq!(settings.bool("dual_cis"), Some(true));
}

#[test]
fn zero_minutes_means_no_limit_rather_than_no_time() {
    let settings = Settings::from_text("idle_timeout_min = 0\nreconnect_window_min = 2\n");

    assert_eq!(settings.minutes("idle_timeout_min"), Some(None));
    assert_eq!(settings.minutes("reconnect_window_min"), Some(Some(Duration::from_secs(120))));
}

#[test]
fn the_app_is_told_what_a_change_costs() {
    let before = Settings::defaults();

    let mut after = before.clone();
    after.set("gain", "0.5");
    let touched = after.scopes_touched_by(&before);
    assert!(touched.is_empty(), "live output gain must not request a reconnect");

    after.set("preset", "low-latency");
    let touched = after.scopes_touched_by(&before);
    assert_eq!(touched.len(), 1);
    assert_eq!(touched[0].key, "preset");
    assert_eq!(touched[0].scope, ApplyScope::OnReconnect);
    assert_eq!(touched[0].scope.explain(), "applies after reconnecting the headphones");
}

#[test]
fn the_defaults_are_the_quality_ones() {
    let defaults = Settings::defaults();

    assert_eq!(defaults.number("gain").map(value), Some(1.0), "no attenuation by default");
    assert_eq!(defaults.minutes("idle_timeout_min"), Some(Some(Duration::from_secs(300))));
    assert_eq!(defaults.bool("reconnect_enabled"), Some(true));
    assert_eq!(defaults.bool("startup_reconnect_enabled"), Some(true));
    assert_eq!(defaults.minutes("reconnect_window_min"), Some(Some(Duration::from_secs(180))));
}

#[test]
fn every_knob_says_what_changing_it_costs() {
    for k in knobs() {
        assert!(!k.description.is_empty(), "{} has no description", k.key);
        assert!(knob(k.key).is_some());
    }
}

#[test]
fn every_default_is_a_setting_that_reads_back() {
    let defaults = Settings::defaults();
    for k in knobs() {
        let mut changed = defaults.clone();
        changed.set(k.key, "1");
        let back = Settings::from_text(&changed.to_text());
        assert_eq!(back.get(k.key), Some("1"), "{}", k.key);
        assert_eq!(back.len(), changed.len());
    }
}

#[test]
fn the_last_line_wins_and_comments_are_passed_over() {
    let settings = Settings::from_text("# first\ngain = 1\n\n  gain=0.25  \nname = a = b\n");
    assert_eq!(settings.get("gain"), Some("0.25"));
    assert_eq!(settings.get("name"), Some("a = b"));
    assert_eq!(settings.get("# first"), None);
    assert_eq!(settings.len(), 2);
}

#[test]
fn a_change_of_nothing_costs_nothing() {
    let defaults = Settings::defaults();
    assert!(defaults.scopes_touched_by(&defaults).is_empty());
    assert_eq!(ApplyScope::Immediately.explain(), knob("gain").unwrap().scope.explain());
    let words = [
        ApplyScope::Immediately.explain(),
        ApplyScope::OnReconnect.explain(),
        ApplyScope::OnAdapterRestart.explain(),
    ];
    assert!(words[0] != words[1] && words[1] != words[2] && words[0] != words[2]);
}

#[test]
fn what_is_stored_nowhere_is_the_defaults() {
    assert_eq!(Settings::restore(None), Settings::defaults());
    let mut changed = Settings::defaults();
    changed.set("gain", "0.5");
    assert_eq!(Settings::restore(Some(&changed.to_text())), changed);
}

#[test]
fn flags_have_their_words() {
    let settings = Settings::from_text("a = true\nb = false\nc = yes\nd = 1\ne = ne\nf = no\n");
    for key in ["a", "c", "d"] {
        assert_eq!(settings.bool(key), Some(true), "{key}");
    }
    for key in ["b", "e"] {
        assert_eq!(settings.bool(key), Some(false), "{key}");
    }
    assert_eq!(settings.bool("f"), None);
    assert_eq!(settings.bool("missing"), None);
    assert_eq!(settings.number("missing"), None);
    assert_eq!(settings.number("d").map(value), Some(1.0));
    assert!(settings.has_minutes("missing"));
}

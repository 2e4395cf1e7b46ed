use landcore::hud::Notifier;
use landcore::land::{Land, LandTexture};
use landcore::store::LandStore;
use landcore::{boot, notify, NOTIFY_TIME};

#[test]
fn notifier_counts_down_to_zero() {
    let mut note = Notifier::default();
    assert_eq!(note.timer(), 0);
    assert_eq!(note.message(), "");
    note.notify("hello", 3);
    assert_eq!(note.message(), "hello");
    assert_eq!(note.timer(), 3);
    assert_eq!(note.timer_start(), 3);
    note.countdown();
    assert_eq!(note.timer(), 2);
    note.countdown();
    note.countdown();
    assert_eq!(note.timer(), 0);
    note.countdown();
    assert_eq!(note.timer(), 0);
    assert_eq!(note.timer_start(), 3);
}

#[test]
fn notify_uses_the_standard_duration() {
    let mut note = Notifier::default();
    notify(&mut note, "saved");
    assert_eq!(note.message(), "saved");
    assert_eq!(note.timer(), NOTIFY_TIME);
    assert_eq!(NOTIFY_TIME, 300);
}

#[test]
fn boot_generates_an_unseeded_land() {
    let mut store = LandStore::new();
    let mut land = Land::new(2, 2, LandTexture { spr_id: 1, width: 2, height: 2 }, &mut store);
    let mut note = Notifier::default();
    let heights: Vec<i32> = (0..16).collect();
    boot(&mut land, &mut store, &mut note, 4242, &heights);
    assert_eq!(land.seed, 4242);
    assert_eq!(note.message(), "Land generated");
    assert_eq!(note.timer(), NOTIFY_TIME);
    let (w, h) = land.size();
    for x in 0..w {
        for y in 0..h {
            let start = heights[x as usize].min(h - 1);
            assert_eq!(land.get(&store, x, y), y >= start);
        }
    }
    // the header was persisted with the new seed
    let reloaded = Land::from_map(&store);
    assert_eq!(reloaded, land);
}

#[test]
fn boot_only_announces_a_seeded_land() {
    let mut store = LandStore::new();
    let mut land = Land::new(2, 2, LandTexture { spr_id: 1, width: 2, height: 2 }, &mut store);
    land.set_seed(7);
    land.set(&mut store, 3, 3, true);
    let mut note = Notifier::default();
    let heights: Vec<i32> = (0..16).collect();
    boot(&mut land, &mut store, &mut note, 4242, &heights);
    assert_eq!(land.seed, 7);
    assert_eq!(note.message(), "Land loaded");
    assert_eq!(land.get(&store, 3, 3), true);
    assert_eq!(land.get(&store, 0, 0), false);
}

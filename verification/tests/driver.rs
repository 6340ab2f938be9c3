use terragen::util::RateManager;
use terragen::world::World;

#[test]
fn world_ticks_and_erodes() {
    let noise = vec![0i32; 24 * 24];
    let mut world = World::new((24, 24), 50, 3, 3, noise);
    assert_eq!(world.size(), (24, 24));
    assert_eq!(world.cur_tick(), 0);
    let before = world.height_field().clone();
    world.update();
    assert_eq!(world.cur_tick(), 1);
    assert_eq!(world.height_field().len(), before.len());
}

#[test]
fn world_without_continents_is_noise() {
    let mut noise = vec![0i32; 100];
    for i in 0..100 {
        noise[i] = (i as i32) * 77 - 3000;
    }
    let world = World::new((10, 10), 10, 0, 3, noise.clone());
    assert_eq!(world.height_field(), &noise);
}

#[test]
fn rate_manager_counts_due_ticks() {
    let rm = RateManager::new(5, 10, 1_000_000_000);
    assert_eq!(rm.tick_rate(), 10);
    // after half a second at ten ticks per second, five ticks are due
    assert_eq!(rm.ticks_to_do_by_time(1_500_000_000), 5);
    assert_eq!(rm.next_tick_time(), 1_100_000_000);
}

#[test]
fn rate_manager_pack_wrap() {
    let mut rm = RateManager::new(2, 10, 0);
    rm.register_tick(100);
    assert_eq!(rm.next_tick_time(), 200_000_000);
    // the second tick completes the pack and re-anchors it
    rm.register_tick(500);
    assert_eq!(rm.next_tick_time(), 100_000_500);
}

#[test]
fn rate_manager_set_rate_resets() {
    let mut rm = RateManager::new(4, 10, 0);
    rm.register_tick(10);
    rm.set_tick_rate(20, 1_000);
    assert_eq!(rm.tick_rate(), 20);
    assert_eq!(rm.ticks_to_do_by_time(1_000), 0);
    assert_eq!(rm.next_tick_time(), 1_000 + 50_000_000);
}

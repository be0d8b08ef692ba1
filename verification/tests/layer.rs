use keyboard_daemon::color::{Hs, Rgb};
use keyboard_daemon::dummy::DaemonDummy;
use keyboard_daemon::layer::Layer;
use keyboard_daemon::protocol::Daemon;
use keyboard_daemon::BoardId;

fn one_board() -> DaemonDummy {
    DaemonDummy::new(vec!["launch_1".to_string()])
}

#[test]
fn construction_seeds_the_cache_from_hardware() {
    let mut d = one_board();
    d.set_brightness(BoardId(0), 33).unwrap();
    d.set_color(BoardId(0), Rgb::new(255, 0, 0)).unwrap();
    let layer = Layer::new(&mut d, BoardId(0), true, 1);
    assert_eq!(layer.layer, 1);
    assert_eq!(layer.index, 0xf1);
    assert_eq!(layer.brightness(), 33);
    assert_eq!(layer.color(), Hs::new(0, 255));
    assert_eq!(layer.mode(), None);
}

#[test]
fn whole_board_selector_without_per_layer_support() {
    let mut d = one_board();
    let layer = Layer::new(&mut d, BoardId(0), false, 1);
    assert_eq!(layer.index, 0xff);
}

#[test]
fn failed_seed_reads_degrade_to_zero_defaults() {
    let layer = Layer::from_reads(
        BoardId(0),
        true,
        0,
        Err("device busy".to_string()),
        Err("malformed response".to_string()),
    );
    assert_eq!(layer.brightness(), 0);
    assert_eq!(layer.color(), Hs::new(0, 0));
}

#[test]
fn set_brightness_updates_cache_only_on_success() {
    let mut d = one_board();
    let mut dirty = false;
    let mut layer = Layer::new(&mut d, BoardId(0), true, 0);

    assert_eq!(layer.set_brightness(&mut d, &mut dirty, 72), Ok(()));
    assert_eq!(layer.brightness(), 72);
    assert!(dirty);
    // The write really reached the daemon.
    assert_eq!(d.brightness(BoardId(0)), Ok(72));

    // A layer bound to a vanished board: the write fails, the cache and
    // the dirty flag keep their values.
    let mut dirty2 = false;
    let mut stale = Layer::from_reads(BoardId(9), true, 0, Ok(5), Err("x".to_string()));
    assert!(stale.set_brightness(&mut d, &mut dirty2, 80).is_err());
    assert_eq!(stale.brightness(), 5);
    assert!(!dirty2);
}

#[test]
fn set_color_writes_through_then_caches() {
    let mut d = one_board();
    let mut dirty = false;
    let mut layer = Layer::new(&mut d, BoardId(0), false, 0);
    assert_eq!(layer.set_color(&mut d, &mut dirty, Hs::new(512, 255)), Ok(()));
    assert_eq!(layer.color(), Hs::new(512, 255));
    assert!(dirty);
    assert_eq!(d.color(BoardId(0)), Ok(Rgb::new(0, 255, 0)));
}

#[test]
fn set_mode_is_rejected_without_effect_support() {
    let mut d = one_board();
    let mut layer = Layer::new(&mut d, BoardId(0), true, 0);
    assert!(layer.set_mode(3, 128).is_err());
    assert_eq!(layer.mode(), None);
}

use keyboard_daemon::color::{hs_to_rgb, rgb_to_hs, Hs, Rgb};

#[test]
fn primary_colors() {
    assert_eq!(hs_to_rgb(Hs::new(0, 255)), Rgb::new(255, 0, 0));
    assert_eq!(hs_to_rgb(Hs::new(512, 255)), Rgb::new(0, 255, 0));
    assert_eq!(hs_to_rgb(Hs::new(1024, 255)), Rgb::new(0, 0, 255));
}

#[test]
fn zero_saturation_is_white() {
    assert_eq!(hs_to_rgb(Hs::new(0, 0)), Rgb::new(255, 255, 255));
    assert_eq!(hs_to_rgb(Hs::new(700, 0)), Rgb::new(255, 255, 255));
}

#[test]
fn gray_maps_to_zero_hue_and_saturation() {
    assert_eq!(rgb_to_hs(Rgb::new(90, 90, 90)), Hs::new(0, 0));
    assert_eq!(rgb_to_hs(Rgb::new(255, 255, 255)), Hs::new(0, 0));
    assert_eq!(rgb_to_hs(Rgb::new(0, 0, 0)), Hs::new(0, 0));
}

#[test]
fn red_recovers_full_saturation() {
    assert_eq!(rgb_to_hs(Rgb::new(255, 0, 0)), Hs::new(0, 255));
}

#[test]
fn half_intensity_color_keeps_relative_saturation() {
    // (128, 0, 0): chroma 128 of max 128 -> saturation 255, hue red.
    assert_eq!(rgb_to_hs(Rgb::new(128, 0, 0)), Hs::new(0, 255));
}

#[test]
fn mid_sector_values() {
    // Sector 1, step 128, full saturation: red falling halfway.
    let c = hs_to_rgb(Hs::new(256 + 128, 255));
    assert_eq!(c.g, 255);
    assert_eq!(c.b, 0);
    assert!(c.r > 100 && c.r < 155);
}

fn channel_close(a: u8, b: u8) -> bool {
    (a as i32 - b as i32).abs() <= 1
}

#[test]
fn round_trip_stays_within_one_lsb_per_channel() {
    for h in (0u16..1536).step_by(7) {
        for s in (0u16..=255).step_by(5) {
            let hs = Hs::new(h, s as u8);
            let c1 = hs_to_rgb(hs);
            let back = rgb_to_hs(c1);
            let c2 = hs_to_rgb(back);
            assert!(
                channel_close(c1.r, c2.r) && channel_close(c1.g, c2.g) && channel_close(c1.b, c2.b),
                "drift at h={} s={}: {:?} vs {:?}",
                h,
                s,
                c1,
                c2
            );
        }
    }
}

use shortnuts::display::normalize_resolutions;

#[test]
fn resolutions_are_sorted_and_deduplicated() {
    let modes = vec![
        (1920, 1080),
        (640, 480),
        (1920, 1080),
        (800, 600),
        (640, 480),
        (1024, 768),
        (800, 600),
    ];
    assert_eq!(
        normalize_resolutions(&modes),
        vec![(640, 480), (800, 600), (1024, 768), (1920, 1080)]
    );
}

#[test]
fn resolutions_order_is_lexicographic() {
    let modes = vec![(1280, 1024), (1280, 720), (1024, 768)];
    assert_eq!(
        normalize_resolutions(&modes),
        vec![(1024, 768), (1280, 720), (1280, 1024)]
    );
}

#[test]
fn resolutions_empty_input_stays_empty() {
    assert_eq!(normalize_resolutions(&Vec::new()), Vec::<(u32, u32)>::new());
}

use factory_planner::save::{
    autosave_file_name, check_save_version, autosave_plan, default_true, format_hms, format_saved_at, newest_first, DisplayMode, EffectQuality,
    FpsLimit, GameMode, Settings, AUTOSAVE_SLOTS, SAVE_VERSION,
};

#[test]
fn settings_defaults() {
    let s = Settings::default();
    assert_eq!(s.display_mode, DisplayMode::Windowed);
    assert!(!s.vsync);
    assert_eq!((s.window_w, s.window_h), (1400, 900));
    assert!(s.show_fps);
    assert_eq!(s.effect_quality, EffectQuality::Medium);
    assert_eq!(s.fps_limit, FpsLimit::Fps120);
    assert_eq!(s.autosave_next, 0);
    assert_eq!(EffectQuality::default(), EffectQuality::Medium);
    assert_eq!(FpsLimit::default(), FpsLimit::Fps120);
    assert_eq!(GameMode::default(), GameMode::Survival);
    assert!(default_true());
    assert_eq!(SAVE_VERSION, 10);
}

#[test]
fn settings_buttons_cycle() {
    let mut m = DisplayMode::Windowed;
    let mut seen = Vec::new();
    for _ in 0..3 {
        seen.push(m.label());
        m = m.next();
    }
    assert_eq!(m, DisplayMode::Windowed);
    assert_eq!(seen, vec!["Windowed", "Borderless", "Fullscreen"]);
    assert!(DisplayMode::Windowed.is_windowed());
    assert!(!DisplayMode::Fullscreen.is_windowed());

    let mut q = EffectQuality::Low;
    for _ in 0..3 {
        q = q.next();
    }
    assert_eq!(q, EffectQuality::Low);
    assert_eq!(EffectQuality::High.label(), "High");

    let mut f = FpsLimit::Fps30;
    let mut labels = Vec::new();
    for _ in 0..6 {
        labels.push(f.label());
        f = f.next();
    }
    assert_eq!(f, FpsLimit::Fps30);
    assert_eq!(labels, vec!["30", "60", "120", "144", "240", "Unlimited"]);
}

#[test]
fn fps_cap_rates() {
    assert_eq!(FpsLimit::Fps30.frame_rate(), Some(30));
    assert_eq!(FpsLimit::Fps144.frame_rate(), Some(144));
    assert_eq!(FpsLimit::Unlimited.frame_rate(), None);
}

#[test]
fn game_mode_texts() {
    assert_eq!(GameMode::Survival.label(), "Survival");
    assert_eq!(GameMode::Creative.label(), "Creative");
    assert!(GameMode::Creative.is_creative());
    assert!(!GameMode::Survival.is_creative());
    assert_eq!(GameMode::Creative.blurb(), "Everything unlocked · free placement");
    assert_eq!(GameMode::Survival.blurb(), "Tech gates build menu · spend materials to place");
}

#[test]
fn autosave_rotation() {
    assert_eq!(autosave_file_name(0), "autosave_0.json");
    assert_eq!(autosave_file_name(12), "autosave_12.json");
    let p = autosave_plan(4);
    assert_eq!(p.slot, 1);
    assert_eq!(p.label, "Autosave 2");
    assert_eq!(p.file_name, "autosave_1.json");
    assert_eq!(p.next, 2);
    let mut next = 0;
    let mut slots = Vec::new();
    for _ in 0..4 {
        let p = autosave_plan(next);
        slots.push(p.slot);
        next = p.next;
    }
    assert_eq!(slots, vec![0, 1, 2, 0]);
    assert_eq!(AUTOSAVE_SLOTS, 3);
}

#[test]
fn saved_at_ages() {
    assert_eq!(format_saved_at(1000, 1000), "just now");
    assert_eq!(format_saved_at(1000, 1059), "just now");
    assert_eq!(format_saved_at(1000, 1060), "1m ago");
    assert_eq!(format_saved_at(0, 3599), "59m ago");
    assert_eq!(format_saved_at(0, 3600), "1h ago");
    assert_eq!(format_saved_at(0, 86399), "23h ago");
    assert_eq!(format_saved_at(0, 86400), "1d ago");
    assert_eq!(format_saved_at(0, 864000), "10d ago");
    // a stamp from the future counts as now
    assert_eq!(format_saved_at(5000, 10), "just now");
}

#[test]
fn playtime_clock_text() {
    assert_eq!(format_hms(0), "00:00:00");
    assert_eq!(format_hms(3661), "01:01:01");
    assert_eq!(format_hms(59), "00:00:59");
    assert_eq!(format_hms(360000), "100:00:00");
}

#[test]
fn save_list_newest_first() {
    assert_eq!(newest_first(&vec![]), Vec::<usize>::new());
    assert_eq!(newest_first(&vec![5]), vec![0]);
    assert_eq!(newest_first(&vec![10, 30, 20]), vec![1, 2, 0]);
    // equal stamps keep the order they were found in
    assert_eq!(newest_first(&vec![7, 9, 7, 9, 1]), vec![1, 3, 0, 2, 4]);
    let stamps = vec![3u64, 1, 4, 1, 5, 9, 2, 6, 5, 3];
    let order = newest_first(&stamps);
    let mut want: Vec<usize> = (0..stamps.len()).collect();
    want.sort_by(|a, b| stamps[*b].cmp(&stamps[*a]));
    assert_eq!(order, want);
}

#[test]
fn save_version_gate() {
    for v in 1u32..=10 {
        assert!(check_save_version(v).is_ok());
    }
    assert_eq!(check_save_version(0), Err("Unsupported save version 0".to_string()));
    assert_eq!(check_save_version(11), Err("Unsupported save version 11".to_string()));
}

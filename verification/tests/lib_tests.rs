#[test]
fn lib_crate_name_is_stable() {
    assert_eq!(dab_core::crate_name(), "dab-core");
}

#[test]
fn gpu_crate_name_is_stable() {
    assert_eq!(dab_core::gpu::crate_name(), "dab-gpu");
}

#[test]
fn core_game_constructs() {
    let geom = dab_core::BoardGeom::new(3, 3).expect("geom");
    let game = dab_core::Game::new(geom);
    assert!(!game.is_terminal());
    assert_eq!(dab_core::crate_name(), "dab-core");
}

#[test]
fn consts_match_core() {
    assert_eq!(dab_core::AZ_CHANNELS, 7);
    assert_eq!(dab_core::AZ_PLANE, 11);
    assert_eq!(dab_core::AZ_POLICY, 60);
    assert_eq!(dab_core::AZ_FEATURES, 847);
}

#[test]
fn perfect_hud_size_rejects_4x4() {
    let geom = dab_core::BoardGeom::new(4, 4).unwrap();
    assert!(!dab_core::is_perfect_hud_size(geom.rows(), geom.cols()));
    assert!(!dab_core::is_perfect_hud_size(5, 5));
    assert!(dab_core::is_perfect_hud_size(2, 2));
    assert!(dab_core::is_perfect_hud_size(3, 3));
}

#[test]
fn analyze_dump_matches_core_and_does_not_play() {
    let game = dab_core::Game::new(dab_core::BoardGeom::new(1, 3).unwrap());
    let dump = dab_core::encode_analysis(&game);
    assert_eq!(
        dump,
        dab_core::encode_analysis(&dab_core::Game::new(dab_core::BoardGeom::new(1, 3).unwrap()))
    );
    assert_eq!(game.legal_moves().len(), game.geom().edge_count() as usize);
    assert_eq!(game.current_player(), dab_core::Player::P1);
}

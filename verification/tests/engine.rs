use sage_engine_server::calls::{call_steps, CallStep, EngineCall};
use sage_engine_server::catalog::{LevelKind, RolloutParams};
use sage_engine_server::engine::{
    apply_options, apply_preset, cube_ctx, plies_stamp, preset_2t, preset_3t, CubeOwner, EngineGetError,
    LevelError, MatchContext, RolloutOptions,
};
use sage_engine_server::ffi::{
    call_result, creation_result, error_from, move_count, Capi, CapiError, RolloutConfig, TrialEval,
    BGSAGE_E_CANCELLED, BGSAGE_E_LOAD_FAILED, BGSAGE_OK, KIND_PLY, KIND_ROLLOUT, OWNER_CENTERED,
    OWNER_MOVER, OWNER_OPPONENT,
};
use sage_engine_server::levels;
use sage_engine_server::pool::{parse_options, EnginePlan, EnginePool, Lookup};
use sage_engine_server::weights::{Probe, WeightSet, STAGE9_PLAN_FILES};

fn defaults() -> RolloutConfig {
    let trial = TrialEval { ply: 1, rollout_trials: 11, rollout_depth: 12, rollout_ply: 13 };
    RolloutConfig {
        n_trials: 50,
        truncation_depth: 5,
        decision_ply: 1,
        truncation_ply: 9,
        late_ply: 8,
        late_threshold: 7,
        ultra_late_threshold: 6,
        enable_vr: 1,
        cubeful_trial_moves: 4,
        cubeful_late_threshold: 3,
        seed: 77,
        max_batches: 2,
        checker: trial,
        checker_late: trial,
        cube: trial,
        cube_late: trial,
    }
}

fn probes() -> Vec<Probe> {
    STAGE9_PLAN_FILES
        .iter()
        .map(|file| Probe { path: format!("models/{file}"), is_file: true })
        .collect()
}

fn pool(threads: i32) -> EnginePool {
    let db = Probe { path: "data/bearoff_1sided.db".to_string(), is_file: true };
    let weights = WeightSet::stage9("models", &probes(), Some(&db)).unwrap();
    let capi = Capi { version: "9.1".to_string(), rollout_config_defaults: defaults() };
    EnginePool::new(capi, weights, threads)
}

fn plan(pool: &EnginePool, level: &str, options: Option<RolloutOptions>) -> EnginePlan {
    match pool.get(level, options.map(Ok)) {
        Ok(Lookup::Build(plan)) => plan,
        other => panic!("{other:?}"),
    }
}

const NO_OPTIONS: RolloutOptions =
    RolloutOptions { trials: None, truncation: None, variance_reduction: None, seed: None };

#[test]
fn plies_stamps_follow_the_dedup_identity() {
    assert_eq!(plies_stamp(levels::PLY_1), 1);
    assert_eq!(plies_stamp(levels::PLY_4), 4);
    assert_eq!(plies_stamp(levels::ROLLER_2T), 0);
    assert_eq!(plies_stamp(levels::ROLLOUT), 0);
}

#[test]
fn cube_ctx_maps_owner_and_away_scores() {
    // Seven points, three to five.
    let context = MatchContext {
        cube_value: 2,
        cube_owner: CubeOwner::Opponent,
        crawford: false,
        jacoby: false,
        away1: 7 - 3,
        away2: 7 - 5,
    };
    let ctx = cube_ctx(&context);
    assert_eq!(ctx.owner, OWNER_OPPONENT);
    assert_eq!(ctx.away1, 4);
    assert_eq!(ctx.away2, 2);
    assert_eq!(ctx.jacoby, 0);
    assert_eq!(ctx.beaver, 1);
}

#[test]
fn cube_ctx_carries_everything_else() {
    let mut context = MatchContext {
        cube_value: 4,
        cube_owner: CubeOwner::Mover,
        crawford: true,
        jacoby: true,
        away1: 0,
        away2: 0,
    };
    let ctx = cube_ctx(&context);
    assert_eq!(ctx.cube_value, 4);
    assert_eq!(ctx.owner, OWNER_MOVER);
    assert_eq!(ctx.is_crawford, 1);
    assert_eq!(ctx.jacoby, 1);
    context.cube_owner = CubeOwner::Centered;
    assert_eq!(cube_ctx(&context).owner, OWNER_CENTERED);
}

#[test]
fn unknown_levels_are_stamped_nought() {
    assert_eq!(plies_stamp("5ply"), 0);
    assert_eq!(plies_stamp(""), 0);
    assert_eq!(plies_stamp(levels::PLY_2), 2);
    assert_eq!(plies_stamp(levels::PLY_3), 3);
    assert_eq!(plies_stamp(levels::ROLLER_3T), 0);
}

#[test]
fn cache_keys_write_every_option() {
    assert_eq!(NO_OPTIONS.cache_key(), "trials=None;truncation=None;vr=None;seed=None");
    let options = RolloutOptions {
        trials: Some(360),
        truncation: None,
        variance_reduction: Some(false),
        seed: Some(4294967295),
    };
    assert_eq!(
        options.cache_key(),
        "trials=Some(360);truncation=None;vr=Some(false);seed=Some(4294967295)"
    );
    let options = RolloutOptions { truncation: Some(0), variance_reduction: Some(true), ..NO_OPTIONS };
    assert_eq!(options.cache_key(), "trials=None;truncation=Some(0);vr=Some(true);seed=None");
}

#[test]
fn options_that_differ_have_different_keys() {
    let all = [
        NO_OPTIONS,
        RolloutOptions { trials: Some(1), ..NO_OPTIONS },
        RolloutOptions { truncation: Some(1), ..NO_OPTIONS },
        RolloutOptions { seed: Some(1), ..NO_OPTIONS },
        RolloutOptions { variance_reduction: Some(true), ..NO_OPTIONS },
        RolloutOptions { trials: Some(11), ..NO_OPTIONS },
    ];
    for (i, a) in all.iter().enumerate() {
        for (j, b) in all.iter().enumerate() {
            assert_eq!(a.cache_key() == b.cache_key(), i == j);
        }
    }
}

#[test]
fn level_errors_have_their_lines() {
    assert_eq!(
        LevelError::UnknownLevel("9\"ply".to_string()).to_string(),
        "unknown level \"9\\\"ply\""
    );
    assert_eq!(
        LevelError::InvalidOptions("no".to_string()).to_string(),
        "invalid levelOptions: no"
    );
}

#[test]
fn presets_go_over_the_defaults() {
    let mut config = defaults();
    apply_preset(&mut config, &preset_2t());
    assert_eq!(config.n_trials, 360);
    assert_eq!(config.truncation_depth, 7);
    assert_eq!(config.decision_ply, 2);
    assert_eq!(config.truncation_ply, 2);
    assert_eq!(config.late_ply, 1);
    assert_eq!(config.late_threshold, 1);
    assert_eq!(config.cube.ply, 2);
    assert_eq!(config.cube.rollout_trials, 11);
    assert_eq!(config.cube_late.ply, 2);
    assert_eq!(config.ultra_late_threshold, 9999);
    assert_eq!(config.checker, defaults().checker);

    let mut config = defaults();
    apply_preset(&mut config, &preset_3t());
    assert_eq!(config.decision_ply, 3);
    // The preset leaves these to the engine library.
    assert_eq!(config.truncation_ply, 9);
    assert_eq!(config.cube.ply, 1);
    assert_eq!(config.cube_late.ply, 1);
    assert_eq!(config.late_ply, 2);
    assert_eq!(config.late_threshold, 2);
}

#[test]
fn rollout_options_go_over_the_defaults() {
    let mut config = defaults();
    apply_options(&mut config, None);
    assert_eq!(config.n_trials, 1296);
    assert_eq!(config.truncation_depth, 0);
    assert_eq!(config.ultra_late_threshold, 9999);
    assert_eq!(config.enable_vr, 1);
    assert_eq!(config.seed, 77);

    let mut config = defaults();
    let options = RolloutOptions {
        trials: Some(36),
        truncation: Some(11),
        variance_reduction: Some(false),
        seed: Some(3000000000),
    };
    apply_options(&mut config, Some(options));
    assert_eq!(config.n_trials, 36);
    assert_eq!(config.truncation_depth, 11);
    assert_eq!(config.enable_vr, 0);
    assert_eq!(config.seed, 3000000000);

    // A count past the signed range comes out as its bit pattern.
    let mut config = defaults();
    apply_options(&mut config, Some(RolloutOptions { trials: Some(4294967295), ..NO_OPTIONS }));
    assert_eq!(config.n_trials, -1);
}

#[test]
fn the_catalog_holds_seven_levels() {
    let describe = pool(0).describe("sage-engine-server 1.2.3");
    assert_eq!(describe.protocol_version, "0.1");
    assert_eq!(describe.engine.family, "bgsage");
    assert_eq!(describe.engine.display_name, "Open Sage");
    assert_eq!(describe.engine.version, "9.1");
    assert_eq!(describe.engine.build, "sage-engine-server 1.2.3");
    assert_eq!(describe.max_parallel, 1);
    assert_eq!(describe.conventions.ply_counting, "xg");
    assert_eq!(describe.conventions.equity, "contract");
    let ids: Vec<&str> = describe.levels.iter().map(|level| level.id.as_str()).collect();
    assert_eq!(ids, vec!["1ply", "2ply", "3ply", "4ply", "2T", "3T", "rollout"]);
    for (depth, level) in describe.levels[..4].iter().enumerate() {
        assert_eq!(level.kind, LevelKind::Ply);
        assert_eq!(level.ply_depth, Some(depth as u32 + 1));
        assert_eq!(level.rollout, None);
        assert_eq!(level.display_name, None);
        assert!(!level.configurable && !level.supports_progress && !level.supports_cancel);
    }
    let roller = &describe.levels[4];
    assert_eq!(roller.kind, LevelKind::Roller);
    assert_eq!(roller.display_name.as_deref(), Some("Sage 2T"));
    assert_eq!(
        roller.rollout,
        Some(RolloutParams {
            trials: 360,
            truncation: 7,
            variance_reduction: true,
            checker_ply: Some(2),
            cube_ply: Some(2),
        })
    );
    let plus = &describe.levels[5];
    assert_eq!(plus.kind, LevelKind::RollerPlus);
    assert_eq!(plus.display_name.as_deref(), Some("Sage 3T"));
    assert_eq!(plus.rollout.unwrap().checker_ply, Some(3));
    assert_eq!(plus.rollout.unwrap().cube_ply, Some(3));
    let rollout = &describe.levels[6];
    assert_eq!(rollout.kind, LevelKind::Rollout);
    assert_eq!(rollout.rollout.unwrap().trials, 1296);
    assert_eq!(rollout.rollout.unwrap().truncation, 0);
    assert!(rollout.configurable && rollout.supports_progress && rollout.supports_cancel);
    assert!(describe.levels.iter().all(|level| level.methods.is_none()));
}

#[test]
fn engines_are_made_as_advertised() {
    let pool = pool(0);
    for level in pool.describe("b").levels {
        let plan = plan(&pool, &level.id, None);
        assert_eq!(plan.handle.supports_cancel, level.supports_cancel);
        match level.ply_depth {
            Some(depth) => {
                assert_eq!(plan.config.kind, KIND_PLY);
                assert_eq!(plan.config.n_plies, depth as i32);
                assert_eq!(plan.handle.plies_stamp, depth as i32);
            }
            None => {
                assert_eq!(plan.config.kind, KIND_ROLLOUT);
                assert_eq!(plan.config.n_plies, 0);
                let shown = level.rollout.unwrap();
                assert_eq!(plan.config.rollout.n_trials, shown.trials as i32);
                assert_eq!(plan.config.rollout.truncation_depth, shown.truncation as i32);
                assert_eq!(plan.handle.plies_stamp, 0);
            }
        }
    }
}

#[test]
fn plans_carry_the_weights() {
    let plan = plan(&pool(3), "2ply", None);
    assert_eq!(plan.config.strategy_type, "backgame_pair");
    assert_eq!(plan.config.n_weights, 19);
    assert_eq!(plan.config.weight_paths.len(), 19);
    assert_eq!(plan.config.weight_paths[0], "models/sl_s9_purerace.weights.best");
    assert_eq!(plan.config.hidden_sizes[0], 100);
    assert_eq!(plan.config.hidden_sizes[18], 400);
    assert_eq!(plan.config.bearoff_db_path.as_deref(), Some("data/bearoff_1sided.db"));
    assert_eq!(plan.config.filter_max_moves, 0);
    assert_eq!(plan.config.threads, 3);
    assert_eq!(plan.config.rollout, defaults());
}

#[test]
fn summaries_say_what_was_resolved() {
    assert_eq!(plan(&pool(0), "4ply", None).handle.config_summary, "Plies=4 Threads=auto");
    assert_eq!(plan(&pool(8), "1ply", None).handle.config_summary, "Plies=1 Threads=8");
    assert_eq!(
        plan(&pool(0), "2T", None).handle.config_summary,
        "Trials=360 Trunc=7 Decision=2ply Cube=2ply Threads=auto"
    );
    assert_eq!(
        plan(&pool(-2), "3T", None).handle.config_summary,
        "Trials=360 Trunc=7 Decision=3ply Cube=1ply Threads=-2"
    );
    let options = RolloutOptions { trials: Some(36), ..NO_OPTIONS };
    assert_eq!(
        plan(&pool(1), "rollout", Some(options)).handle.config_summary,
        "Trials=36 Trunc=0 Decision=1ply Cube=1ply Threads=1"
    );
}

#[test]
fn options_belong_to_the_rollout_level_alone() {
    assert_eq!(parse_options("2T", None).unwrap(), None);
    assert_eq!(parse_options("rollout", Some(Ok(NO_OPTIONS))).unwrap(), Some(NO_OPTIONS));
    match parse_options("2T", Some(Ok(NO_OPTIONS))) {
        Err(LevelError::InvalidOptions(m)) => assert_eq!(m, "level \"2T\" is not configurable"),
        other => panic!("{other:?}"),
    }
    // Refused before it is asked what they say, and whether the level is known.
    match parse_options("nonesuch", Some(Err("bad".to_string()))) {
        Err(LevelError::InvalidOptions(m)) => {
            assert_eq!(m, "level \"nonesuch\" is not configurable")
        }
        other => panic!("{other:?}"),
    }
    match parse_options("rollout", Some(Err("unknown field `bogus`".to_string()))) {
        Err(LevelError::InvalidOptions(m)) => assert_eq!(m, "unknown field `bogus`"),
        other => panic!("{other:?}"),
    }
}

#[test]
fn unknown_levels_are_refused() {
    match pool(0).get("5ply", None) {
        Err(LevelError::UnknownLevel(level)) => assert_eq!(level, "5ply"),
        other => panic!("{other:?}"),
    }
}

#[test]
fn an_engine_is_made_once_and_found_again() {
    let mut pool = pool(0);
    let first = plan(&pool, "2ply", None);
    assert_eq!(first.key, "2ply");
    assert_eq!(pool.settle(first, Ok(())).unwrap(), 0);
    let options = RolloutOptions { trials: Some(36), ..NO_OPTIONS };
    let second = plan(&pool, "rollout", Some(options));
    assert_eq!(second.key, "rollout?trials=Some(36);truncation=None;vr=None;seed=None");
    assert_eq!(pool.settle(second, Ok(())).unwrap(), 1);
    assert!(matches!(pool.get("2ply", None), Ok(Lookup::Cached(0))));
    assert!(matches!(pool.get("rollout", Some(Ok(options))), Ok(Lookup::Cached(1))));
    // Other options, and none, ask for an engine of their own.
    assert!(matches!(pool.get("rollout", Some(Ok(NO_OPTIONS))), Ok(Lookup::Build(_))));
    assert!(matches!(pool.get("rollout", None), Ok(Lookup::Build(_))));
    assert_eq!(pool.handles[1].handle.config_summary, "Trials=36 Trunc=0 Decision=1ply Cube=1ply Threads=auto");
}

#[test]
fn an_engine_that_cannot_be_made_is_not_kept() {
    let mut pool = pool(0);
    let first = plan(&pool, "2ply", None);
    let e = CapiError { code: BGSAGE_E_LOAD_FAILED, message: "no weights".to_string() };
    match pool.settle(first, Err(e)) {
        Err(EngineGetError::Create(e)) => {
            assert_eq!(e.to_string(), "bgsage_capi error 2: no weights")
        }
        other => panic!("{other:?}"),
    }
    assert!(matches!(pool.get("2ply", None), Ok(Lookup::Build(_))));
}

#[test]
fn calls_forget_an_earlier_cancel() {
    for call in [EngineCall::PreRoll, EngineCall::CubeAction, EngineCall::CheckerPlay(3, 1)] {
        assert_eq!(call_steps(call, false), vec![CallStep::ResetCancel, CallStep::Evaluate(call)]);
        assert_eq!(
            call_steps(call, true),
            vec![
                CallStep::ResetCancel,
                CallStep::SetProgress,
                CallStep::Evaluate(call),
                CallStep::ClearProgress
            ]
        );
    }
}

#[test]
fn error_texts_end_at_the_first_zero() {
    let mut buffer = [0u8; 512];
    buffer[..5].copy_from_slice(b"oh no");
    buffer[6] = b'x';
    let e = error_from(-7, &buffer);
    assert_eq!(e.code, -7);
    assert_eq!(e.message, "oh no");
    assert_eq!(e.to_string(), "bgsage_capi error -7: oh no");
    // A byte that is no text comes out as a replacement character.
    buffer[1] = 0xff;
    assert_eq!(error_from(1, &buffer).message, "o\u{fffd} no");
    buffer[0] = 0;
    assert_eq!(error_from(1, &buffer).message, "");
}

#[test]
fn codes_decide_what_a_call_gives_back() {
    let mut buffer = [0u8; 8];
    buffer[0] = b'e';
    assert_eq!(call_result(BGSAGE_OK, 5, &buffer).unwrap(), 5);
    let e = call_result(BGSAGE_E_CANCELLED, 5, &buffer).unwrap_err();
    assert!(e.is_cancelled());
    assert_eq!(e.message, "e");
    let e = call_result(3, 5, &buffer).unwrap_err();
    assert!(!e.is_cancelled());
    assert_eq!(creation_result(Some(1), &buffer).unwrap(), 1);
    let e = creation_result::<i32>(None, &buffer).unwrap_err();
    assert_eq!(e.code, BGSAGE_E_LOAD_FAILED);
}

#[test]
fn counts_of_moves_are_never_negative() {
    assert_eq!(move_count(-1), 0);
    assert_eq!(move_count(0), 0);
    assert_eq!(move_count(17), 17);
}

#[test]
fn trial_settings_start_unset() {
    assert_eq!(
        TrialEval::default(),
        TrialEval { ply: 0, rollout_trials: 0, rollout_depth: 0, rollout_ply: 0 }
    );
}

#[test]
fn a_level_is_known_where_it_is_advertised() {
    let pool = pool(0);
    let shown: Vec<String> = pool.describe("b").levels.into_iter().map(|level| level.id).collect();
    for id in ["1ply", "2ply", "3ply", "4ply", "5ply", "2T", "3T", "4T", "rollout", "Rollout", ""] {
        assert_eq!(pool.get(id, None).is_ok(), shown.iter().any(|s| s == id), "{id}");
    }
}

#[test]
fn a_level_takes_options_where_it_is_configurable() {
    let pool = pool(0);
    for level in pool.describe("b").levels {
        assert_eq!(pool.get(&level.id, Some(Ok(NO_OPTIONS))).is_ok(), level.configurable);
    }
}

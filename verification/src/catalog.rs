//! What the engine says of itself: who it is and the levels it answers at.
use vstd::prelude::*;

use crate::engine::{preset_2t, preset_3t, RolloutPreset};
#[allow(unused_imports)]
use crate::engine::{roller_2t, roller_3t};
use crate::engine::{
    ENGINE_DISPLAY_NAME, ENGINE_FAMILY, EQUITY_CONVENTION, MAX_PARALLEL, PLY_COUNTING, PRESET_UNSET,
    PROTOCOL_VERSION, ROLLOUT_DEFAULT_TRIALS, ROLLOUT_DEFAULT_TRUNCATION,
};
use crate::levels::{PLY_1, PLY_2, PLY_3, PLY_4, ROLLER_2T, ROLLER_3T, ROLLOUT};
#[allow(unused_imports)]
use crate::levels::{lemma_names, level_named, level_names, KnownLevel};
#[allow(unused_imports)]
use crate::text::strings;

verus! {

/// What a level's evaluation rests on.
#[derive(Clone, Copy, Debug, PartialEq, Eq, Structural)]
pub enum LevelKind {
    Ply,
    Roller,
    RollerPlus,
    Rollout,
}

/// The rollout settings that a level is advertised with.
#[derive(Clone, Copy, Debug, PartialEq, Eq, Structural)]
pub struct RolloutParams {
    pub trials: u32,
    pub truncation: u32,
    pub variance_reduction: bool,
    pub checker_ply: Option<u32>,
    pub cube_ply: Option<u32>,
}

/// One level, as it is advertised.
#[derive(Debug)]
pub struct Level {
    pub id: String,
    pub kind: LevelKind,
    pub display_name: Option<String>,
    pub ply_depth: Option<u32>,
    pub rollout: Option<RolloutParams>,
    /// The methods that the level answers; absent where it answers all.
    pub methods: Option<Vec<String>>,
    pub configurable: bool,
    pub supports_progress: bool,
    pub supports_cancel: bool,
}

/// A level, as it is advertised, with its texts as sequences of characters.
pub struct LevelView {
    pub id: Seq<char>,
    pub kind: LevelKind,
    pub display_name: Option<Seq<char>>,
    pub ply_depth: Option<u32>,
    pub rollout: Option<RolloutParams>,
    pub methods: Option<Seq<Seq<char>>>,
    pub configurable: bool,
    pub supports_progress: bool,
    pub supports_cancel: bool,
}

impl View for Level {
    type V = LevelView;

    open spec fn view(&self) -> LevelView {
        LevelView {
            id: self.id@,
            kind: self.kind,
            display_name: match self.display_name {
                Some(name) => Some(name@),
                None => None,
            },
            ply_depth: self.ply_depth,
            rollout: self.rollout,
            methods: match self.methods {
                Some(names) => Some(strings(names@)),
                None => None,
            },
            configurable: self.configurable,
            supports_progress: self.supports_progress,
            supports_cancel: self.supports_cancel,
        }
    }
}

/// How a ply level is advertised.
pub open spec fn ply_entry(id: Seq<char>, depth: u32) -> LevelView {
    LevelView {
        id,
        kind: LevelKind::Ply,
        display_name: None,
        ply_depth: Some(depth),
        rollout: None,
        methods: None,
        configurable: false,
        supports_progress: false,
        supports_cancel: false,
    }
}

/// How a roller is advertised. A cube depth that the preset leaves open is the
/// depth of its checker decisions.
pub open spec fn roller_entry(id: Seq<char>, kind: LevelKind, name: Seq<char>, p: RolloutPreset) -> LevelView {
    LevelView {
        id,
        kind,
        display_name: Some(name),
        ply_depth: None,
        rollout: Some(
            RolloutParams {
                trials: p.n_trials as u32,
                truncation: p.truncation_depth as u32,
                variance_reduction: true,
                checker_ply: Some(p.decision_ply as u32),
                cube_ply: Some(
                    if p.cube_ply == PRESET_UNSET {
                        p.decision_ply as u32
                    } else {
                        p.cube_ply as u32
                    },
                ),
            },
        ),
        methods: None,
        configurable: false,
        supports_progress: true,
        supports_cancel: true,
    }
}

/// How the full rollout is advertised.
pub open spec fn rollout_entry() -> LevelView {
    LevelView {
        id: ROLLOUT@,
        kind: LevelKind::Rollout,
        display_name: None,
        ply_depth: None,
        rollout: Some(
            RolloutParams {
                trials: 1296,
                truncation: 0,
                variance_reduction: true,
                checker_ply: Some(1),
                cube_ply: Some(1),
            },
        ),
        methods: None,
        configurable: true,
        supports_progress: true,
        supports_cancel: true,
    }
}

/// How each level is advertised.
pub open spec fn entry_of(level: KnownLevel, id: Seq<char>) -> LevelView {
    match level {
        KnownLevel::Ply(n) => ply_entry(id, n),
        KnownLevel::Roller2T => roller_entry(id, LevelKind::Roller, "Sage 2T"@, roller_2t()),
        KnownLevel::Roller3T => roller_entry(id, LevelKind::RollerPlus, "Sage 3T"@, roller_3t()),
        KnownLevel::Rollout => rollout_entry(),
    }
}

/// The catalog: every known level in order.
pub open spec fn catalog() -> Seq<LevelView> {
    Seq::new(7, |i: int| entry_of(level_named(level_names()[i])->0, level_names()[i]))
}

/// A ply level, as it is advertised.
fn ply_level(id: &str, depth: u32) -> (r: Level)
    ensures
        r@ == ply_entry(id@, depth),
{
    Level {
        id: id.to_owned(),
        kind: LevelKind::Ply,
        display_name: None,
        ply_depth: Some(depth),
        rollout: None,
        methods: None,
        configurable: false,
        supports_progress: false,
        supports_cancel: false,
    }
}

/// A roller, as it is advertised.
fn roller_level(id: &str, kind: LevelKind, display_name: &str, preset: &RolloutPreset) -> (r: Level)
    requires
        preset.n_trials >= 0,
        preset.truncation_depth >= 0,
        preset.decision_ply >= 0,
        preset.cube_ply >= 0,
    ensures
        r@ == roller_entry(id@, kind, display_name@, *preset),
{
    Level {
        id: id.to_owned(),
        kind,
        display_name: Some(display_name.to_owned()),
        ply_depth: None,
        rollout: Some(
            RolloutParams {
                trials: preset.n_trials as u32,
                truncation: preset.truncation_depth as u32,
                variance_reduction: true,
                checker_ply: Some(preset.decision_ply as u32),
                cube_ply: Some(
                    if preset.cube_ply != PRESET_UNSET {
                        preset.cube_ply as u32
                    } else {
                        preset.decision_ply as u32
                    },
                ),
            },
        ),
        methods: None,
        configurable: false,
        supports_progress: true,
        supports_cancel: true,
    }
}

fn rollout_level() -> (r: Level)
    ensures
        r@ == rollout_entry(),
{
    Level {
        id: ROLLOUT.to_owned(),
        kind: LevelKind::Rollout,
        display_name: None,
        ply_depth: None,
        rollout: Some(
            RolloutParams {
                trials: ROLLOUT_DEFAULT_TRIALS,
                truncation: ROLLOUT_DEFAULT_TRUNCATION,
                variance_reduction: true,
                checker_ply: Some(1),
                cube_ply: Some(1),
            },
        ),
        methods: None,
        configurable: true,
        supports_progress: true,
        supports_cancel: true,
    }
}

/// Every level, as it is advertised.
fn all_levels() -> (r: Vec<Level>)
    ensures
        r@.len() == 7,
        forall|i: int| 0 <= i < 7 ==> (#[trigger] r@[i])@ == catalog()[i],
{
    let mut r: Vec<Level> = Vec::new();
    r.push(ply_level(PLY_1, 1));
    r.push(ply_level(PLY_2, 2));
    r.push(ply_level(PLY_3, 3));
    r.push(ply_level(PLY_4, 4));
    r.push(roller_level(ROLLER_2T, LevelKind::Roller, "Sage 2T", &preset_2t()));
    r.push(roller_level(ROLLER_3T, LevelKind::RollerPlus, "Sage 3T", &preset_3t()));
    r.push(rollout_level());
    proof {
        lemma_names();
        assert forall|i: int| 0 <= i < 7 implies (#[trigger] r@[i])@ == catalog()[i] by {
            assert(level_names()[i] == level_names()[i]);
        }
    }
    r
}

/// Who the engine is.
#[derive(Debug)]
pub struct EngineIdentity {
    pub family: String,
    pub display_name: String,
    pub version: String,
    pub build: String,
}

/// How the engine counts plies and equities.
#[derive(Debug)]
pub struct Conventions {
    pub ply_counting: String,
    pub equity: String,
}

/// What the engine says of itself.
#[derive(Debug)]
pub struct Describe {
    pub protocol_version: String,
    pub engine: EngineIdentity,
    pub max_parallel: u32,
    pub conventions: Conventions,
    pub levels: Vec<Level>,
}

/// What an engine of the given version and build says of itself.
pub open spec fn describes(d: Describe, version: Seq<char>, build: Seq<char>) -> bool {
    &&& d.protocol_version@ == PROTOCOL_VERSION@
    &&& d.engine.family@ == ENGINE_FAMILY@
    &&& d.engine.display_name@ == ENGINE_DISPLAY_NAME@
    &&& d.engine.version@ == version
    &&& d.engine.build@ == build
    &&& d.max_parallel == MAX_PARALLEL
    &&& d.conventions.ply_counting@ == PLY_COUNTING@
    &&& d.conventions.equity@ == EQUITY_CONVENTION@
    &&& d.levels@.len() == 7
    &&& forall|i: int| 0 <= i < 7 ==> (#[trigger] d.levels@[i])@ == catalog()[i]
}

/// What an engine of the given version and build says of itself.
pub fn description(version: &str, build: &str) -> (r: Describe)
    ensures
        describes(r, version@, build@),
{
    Describe {
        protocol_version: PROTOCOL_VERSION.to_owned(),
        engine: EngineIdentity {
            family: ENGINE_FAMILY.to_owned(),
            display_name: ENGINE_DISPLAY_NAME.to_owned(),
            version: version.to_owned(),
            build: build.to_owned(),
        },
        max_parallel: MAX_PARALLEL,
        conventions: Conventions {
            ply_counting: PLY_COUNTING.to_owned(),
            equity: EQUITY_CONVENTION.to_owned(),
        },
        levels: all_levels(),
    }
}

/// What the engine says of itself: its version and the build as they were given, each in
/// its place, and every level of the catalog, in order.
pub proof fn law_described(d: Describe, version: Seq<char>, build: Seq<char>)
    requires
        describes(d, version, build),
    ensures
        d.engine.version@ == version,
        d.engine.build@ == build,
        d.engine.family@ == "bgsage"@,
        d.engine.display_name@ == "Open Sage"@,
        d.protocol_version@ == "0.1"@,
        d.conventions.ply_counting@ == "xg"@,
        d.conventions.equity@ == "contract"@,
        d.max_parallel == 1,
        d.levels@.len() == level_names().len(),
        forall|i: int| 0 <= i < d.levels@.len() ==> (#[trigger] d.levels@[i]).id@ == level_names()[i],
{
    lemma_names();
    assert forall|i: int| 0 <= i < d.levels@.len() implies (#[trigger] d.levels@[i]).id@
        == level_names()[i] by {
        assert(level_names()[i] == level_names()[i]);
        assert(d.levels@[i]@ == catalog()[i]);
    }
}

} // verus!

//! The level catalog, the engine pool and what an engine of each level is made
//! of.
//!
//! One engine answers at one level. Engines are made when they are first asked
//! for and kept, each under a key made of its level and its options.
use vstd::prelude::*;

use crate::ffi::{CapiError, CubeCtx, RolloutConfig};
#[allow(unused_imports)]
use crate::ffi::TrialEval;
use crate::ffi::{OWNER_CENTERED, OWNER_MOVER, OWNER_OPPONENT};
use crate::levels::{find_level, KnownLevel};
#[allow(unused_imports)]
use crate::levels::level_named;
use crate::text::{push_decimal, quoted};
#[allow(unused_imports)]
use crate::text::{decimal, quoted_text};

verus! {

pub const PROTOCOL_VERSION: &'static str = "0.1";

pub const ENGINE_FAMILY: &'static str = "bgsage";

pub const ENGINE_DISPLAY_NAME: &'static str = "Open Sage";

/// One request at a time: every level shares the machine's cores inside the
/// engine.
pub const MAX_PARALLEL: u32 = 1;

/// Plies are counted from one: one ply is the network's own judgement.
pub const PLY_COUNTING: &'static str = "xg";

pub const EQUITY_CONVENTION: &'static str = "contract";

// Rollout settings

/// One of the named rollout settings.
#[derive(Clone, Copy, Debug, PartialEq, Eq, Structural)]
pub struct RolloutPreset {
    pub n_trials: i32,
    pub truncation_depth: i32,
    pub decision_ply: i32,
    pub truncation_ply: i32,
    pub late_ply: i32,
    pub late_threshold: i32,
    pub cube_ply: i32,
    pub cube_late_ply: i32,
}

/// Keeps a trial from dropping to one ply before it ends.
pub const ULTRA_LATE_DISABLED: i32 = 9999;

/// A cube setting that is left as it is.
pub const PRESET_UNSET: i32 = 0;

/// A truncation setting that is left as it is.
pub const PRESET_INHERIT: i32 = -1;

pub const ROLLOUT_DEFAULT_TRIALS: u32 = 1296;

pub const ROLLOUT_DEFAULT_TRUNCATION: u32 = 0;

/// The settings of the two-ply roller.
pub open spec fn roller_2t() -> RolloutPreset {
    RolloutPreset {
        n_trials: 360,
        truncation_depth: 7,
        decision_ply: 2,
        truncation_ply: 2,
        late_ply: 1,
        late_threshold: 1,
        cube_ply: 2,
        cube_late_ply: 2,
    }
}

/// The settings of the three-ply roller.
pub open spec fn roller_3t() -> RolloutPreset {
    RolloutPreset {
        n_trials: 360,
        truncation_depth: 7,
        decision_ply: 3,
        truncation_ply: PRESET_INHERIT,
        late_ply: 2,
        late_threshold: 2,
        cube_ply: PRESET_UNSET,
        cube_late_ply: PRESET_UNSET,
    }
}

/// The settings of the two-ply roller.
pub fn preset_2t() -> (r: RolloutPreset)
    ensures
        r == roller_2t(),
{
    RolloutPreset {
        n_trials: 360,
        truncation_depth: 7,
        decision_ply: 2,
        truncation_ply: 2,
        late_ply: 1,
        late_threshold: 1,
        cube_ply: 2,
        cube_late_ply: 2,
    }
}

/// The settings of the three-ply roller.
pub fn preset_3t() -> (r: RolloutPreset)
    ensures
        r == roller_3t(),
{
    RolloutPreset {
        n_trials: 360,
        truncation_depth: 7,
        decision_ply: 3,
        truncation_ply: PRESET_INHERIT,
        late_ply: 2,
        late_threshold: 2,
        cube_ply: PRESET_UNSET,
        cube_late_ply: PRESET_UNSET,
    }
}

/// Rollout settings with a preset put over them. What the preset leaves open
/// stays.
pub open spec fn preset_over(c: RolloutConfig, p: RolloutPreset) -> RolloutConfig {
    RolloutConfig {
        n_trials: p.n_trials,
        truncation_depth: p.truncation_depth,
        decision_ply: p.decision_ply,
        truncation_ply: if p.truncation_ply == PRESET_INHERIT {
            c.truncation_ply
        } else {
            p.truncation_ply
        },
        late_ply: p.late_ply,
        late_threshold: p.late_threshold,
        ultra_late_threshold: ULTRA_LATE_DISABLED,
        cube: TrialEval {
            ply: if p.cube_ply == PRESET_UNSET {
                c.cube.ply
            } else {
                p.cube_ply
            },
            ..c.cube
        },
        cube_late: TrialEval {
            ply: if p.cube_late_ply == PRESET_UNSET {
                c.cube_late.ply
            } else {
                p.cube_late_ply
            },
            ..c.cube_late
        },
        ..c
    }
}

/// Puts a preset over rollout settings.
pub fn apply_preset(config: &mut RolloutConfig, preset: &RolloutPreset)
    ensures
        *final(config) == preset_over(*old(config), *preset),
{
    config.n_trials = preset.n_trials;
    config.truncation_depth = preset.truncation_depth;
    config.decision_ply = preset.decision_ply;
    if preset.truncation_ply != PRESET_INHERIT {
        config.truncation_ply = preset.truncation_ply;
    }
    config.late_ply = preset.late_ply;
    config.late_threshold = preset.late_threshold;
    if preset.cube_ply != PRESET_UNSET {
        config.cube.ply = preset.cube_ply;
    }
    if preset.cube_late_ply != PRESET_UNSET {
        config.cube_late.ply = preset.cube_late_ply;
    }
    config.ultra_late_threshold = ULTRA_LATE_DISABLED;
}

/// The options that a request may set on the rollout level.
#[derive(Clone, Copy, Debug, PartialEq, Eq, Structural)]
pub struct RolloutOptions {
    pub trials: Option<u32>,
    pub truncation: Option<u32>,
    pub variance_reduction: Option<bool>,
    pub seed: Option<u32>,
}

/// An optional number as it stands in a key.
pub open spec fn number_text(n: Option<u32>) -> Seq<char> {
    match n {
        Some(n) => "Some("@ + decimal(n as nat) + ")"@,
        None => "None"@,
    }
}

/// An optional flag as it stands in a key.
pub open spec fn flag_text(b: Option<bool>) -> Seq<char> {
    match b {
        Some(true) => "Some(true)"@,
        Some(false) => "Some(false)"@,
        None => "None"@,
    }
}

/// The text that tells apart options that differ.
pub open spec fn options_key(o: RolloutOptions) -> Seq<char> {
    "trials="@ + number_text(o.trials) + ";truncation="@ + number_text(o.truncation) + ";vr="@
        + flag_text(o.variance_reduction) + ";seed="@ + number_text(o.seed)
}

fn push_number(out: &mut String, n: Option<u32>)
    ensures
        final(out)@ == old(out)@ + number_text(n),
{
    match n {
        Some(n) => {
            out.append("Some(");
            push_decimal(out, n as u64);
            out.append(")");
            assert(out@ == old(out)@ + ("Some("@ + decimal(n as nat) + ")"@));
        },
        None => {
            out.append("None");
        },
    }
}

fn push_flag(out: &mut String, b: Option<bool>)
    ensures
        final(out)@ == old(out)@ + flag_text(b),
{
    match b {
        Some(true) => {
            out.append("Some(true)");
        },
        Some(false) => {
            out.append("Some(false)");
        },
        None => {
            out.append("None");
        },
    }
}

impl RolloutOptions {
    /// The text under which an engine with these options is kept.
    pub fn cache_key(&self) -> (r: String)
        ensures
            r@ == options_key(*self),
    {
        let mut r = String::from_str("trials=");
        push_number(&mut r, self.trials);
        r.append(";truncation=");
        push_number(&mut r, self.truncation);
        r.append(";vr=");
        push_flag(&mut r, self.variance_reduction);
        r.append(";seed=");
        push_number(&mut r, self.seed);
        r
    }
}

/// A 32-bit pattern read as a signed number.
pub open spec fn wrapped(n: u32) -> int {
    if n <= 0x7fff_ffff {
        n as int
    } else {
        n - 0x1_0000_0000
    }
}

fn wrap(n: u32) -> (r: i32)
    ensures
        r == wrapped(n),
{
    assert((n as i32) == (if n <= 0x7fff_ffffu32 {
        n as int
    } else {
        n - 0x1_0000_0000int
    })) by (bit_vector);
    n as i32
}

/// The full rollout's settings over those that the engine library starts from.
pub open spec fn rollout_over(c: RolloutConfig, options: Option<RolloutOptions>) -> RolloutConfig {
    let trials = match options {
        Some(o) => match o.trials {
            Some(n) => wrapped(n) as i32,
            None => 1296,
        },
        None => 1296,
    };
    let truncation = match options {
        Some(o) => match o.truncation {
            Some(n) => wrapped(n) as i32,
            None => 0,
        },
        None => 0,
    };
    let vr = match options {
        Some(o) => match o.variance_reduction {
            Some(true) => 1,
            Some(false) => 0,
            None => c.enable_vr,
        },
        None => c.enable_vr,
    };
    let seed = match options {
        Some(o) => match o.seed {
            Some(n) => n,
            None => c.seed,
        },
        None => c.seed,
    };
    RolloutConfig {
        n_trials: trials,
        truncation_depth: truncation,
        ultra_late_threshold: ULTRA_LATE_DISABLED,
        enable_vr: vr,
        seed,
        ..c
    }
}

pub fn apply_options(config: &mut RolloutConfig, options: Option<RolloutOptions>)
    ensures
        *final(config) == rollout_over(*old(config), options),
{
    config.n_trials = ROLLOUT_DEFAULT_TRIALS as i32;
    config.truncation_depth = ROLLOUT_DEFAULT_TRUNCATION as i32;
    config.ultra_late_threshold = ULTRA_LATE_DISABLED;
    if let Some(opts) = options {
        if let Some(trials) = opts.trials {
            config.n_trials = wrap(trials);
        }
        if let Some(truncation) = opts.truncation {
            config.truncation_depth = wrap(truncation);
        }
        if let Some(vr) = opts.variance_reduction {
            config.enable_vr = if vr {
                1
            } else {
                0
            };
        }
        if let Some(seed) = opts.seed {
            config.seed = seed;
        }
    }
}

// Errors

/// Why a level cannot be used as asked.
#[derive(Debug)]
pub enum LevelError {
    UnknownLevel(String),
    /// Options for a level that takes none, or options that cannot be read.
    InvalidOptions(String),
}

/// A level error as one line.
pub open spec fn level_error_text(e: LevelError) -> Seq<char> {
    match e {
        LevelError::UnknownLevel(level) => "unknown level "@ + quoted_text(level@),
        LevelError::InvalidOptions(message) => "invalid levelOptions: "@ + message@,
    }
}

impl LevelError {
    /// The error as one line.
    pub fn to_string(&self) -> (r: String)
        ensures
            r@ == level_error_text(*self),
    {
        match self {
            LevelError::UnknownLevel(level) => {
                let mut r = String::from_str("unknown level ");
                r.append(quoted(level.as_str()).as_str());
                r
            },
            LevelError::InvalidOptions(message) => {
                let mut r = String::from_str("invalid levelOptions: ");
                r.append(message.as_str());
                r
            },
        }
    }
}

/// Why no engine can be had.
#[derive(Debug)]
pub enum EngineGetError {
    Level(LevelError),
    Create(CapiError),
}

/// The depth that a level's results are stamped with: the plies of a ply level,
/// and zero for every other.
pub open spec fn stamp_of(id: Seq<char>) -> int {
    match level_named(id) {
        Some(KnownLevel::Ply(n)) => n as int,
        _ => 0,
    }
}

/// The depth that a level's results are stamped with.
pub fn plies_stamp(level_id: &str) -> (r: i32)
    ensures
        r == stamp_of(level_id@),
{
    match find_level(level_id) {
        Some(KnownLevel::Ply(n)) => n as i32,
        _ => 0,
    }
}

// The cube

/// Who may turn the cube.
#[derive(Clone, Copy, Debug, PartialEq, Eq, Structural)]
pub enum CubeOwner {
    Centered,
    Mover,
    Opponent,
}

/// The cube and the score of a match, as far as an evaluation reads them.
#[derive(Clone, Copy, Debug, PartialEq, Eq, Structural)]
pub struct MatchContext {
    pub cube_value: i32,
    pub cube_owner: CubeOwner,
    pub crawford: bool,
    pub jacoby: bool,
    /// How many points the mover needs to win the match.
    pub away1: i32,
    /// How many points the opponent needs.
    pub away2: i32,
}

/// A flag as the engine library takes it.
pub open spec fn flag(b: bool) -> i32 {
    if b {
        1
    } else {
        0
    }
}

/// The number by which the engine library knows an owner.
pub open spec fn owner_code(owner: CubeOwner) -> i32 {
    match owner {
        CubeOwner::Centered => OWNER_CENTERED,
        CubeOwner::Mover => OWNER_MOVER,
        CubeOwner::Opponent => OWNER_OPPONENT,
    }
}

fn flag_code(b: bool) -> (r: i32)
    ensures
        r == flag(b),
{
    if b {
        1
    } else {
        0
    }
}

/// The cube and the score as an evaluation call takes them.
pub open spec fn ctx_of(context: MatchContext) -> CubeCtx {
    CubeCtx {
        cube_value: context.cube_value,
        owner: owner_code(context.cube_owner),
        away1: context.away1,
        away2: context.away2,
        is_crawford: flag(context.crawford),
        jacoby: flag(context.jacoby),
        beaver: 1,
    }
}

/// The cube and the score as an evaluation call takes them. Beavers are always
/// on; the engine library turns them off in match play.
pub fn cube_ctx(context: &MatchContext) -> (r: CubeCtx)
    ensures
        r == ctx_of(*context),
{
    CubeCtx {
        cube_value: context.cube_value,
        owner: match context.cube_owner {
            CubeOwner::Centered => OWNER_CENTERED,
            CubeOwner::Mover => OWNER_MOVER,
            CubeOwner::Opponent => OWNER_OPPONENT,
        },
        away1: context.away1,
        away2: context.away2,
        is_crawford: flag_code(context.crawford),
        jacoby: flag_code(context.jacoby),
        beaver: 1,
    }
}

/// The context that is handed to the engine tells the match context back: each flag is
/// one where it is set and zero where it is not, each owner has its number, and the cube
/// and the score are as they stand. Beavers are on.
pub proof fn law_context_told(context: MatchContext)
    ensures
        context.crawford ==> ctx_of(context).is_crawford == 1,
        !context.crawford ==> ctx_of(context).is_crawford == 0,
        context.jacoby ==> ctx_of(context).jacoby == 1,
        !context.jacoby ==> ctx_of(context).jacoby == 0,
        ctx_of(context).owner == 0 <==> context.cube_owner == CubeOwner::Centered,
        ctx_of(context).owner == 1 <==> context.cube_owner == CubeOwner::Mover,
        ctx_of(context).owner == 2 <==> context.cube_owner == CubeOwner::Opponent,
        ctx_of(context).cube_value == context.cube_value,
        ctx_of(context).away1 == context.away1,
        ctx_of(context).away2 == context.away2,
        ctx_of(context).beaver == 1,
{
}

/// Match contexts that differ are handed to the engine as contexts that differ.
pub proof fn law_contexts_distinct(a: MatchContext, b: MatchContext)
    requires
        ctx_of(a) == ctx_of(b),
    ensures
        a == b,
{
}

/// One part of the match context changes one part of what is handed to the engine, and
/// no other.
pub proof fn law_context_parts(context: MatchContext, n: i32, b: bool)
    ensures
        ctx_of(MatchContext { cube_value: n, ..context }) == (CubeCtx {
            cube_value: n,
            ..ctx_of(context)
        }),
        ctx_of(MatchContext { away1: n, ..context }) == (CubeCtx { away1: n, ..ctx_of(context) }),
        ctx_of(MatchContext { away2: n, ..context }) == (CubeCtx { away2: n, ..ctx_of(context) }),
        ctx_of(MatchContext { crawford: b, ..context }) == (CubeCtx {
            is_crawford: if b {
                1
            } else {
                0
            },
            ..ctx_of(context)
        }),
        ctx_of(MatchContext { jacoby: b, ..context }) == (CubeCtx {
            jacoby: if b {
                1
            } else {
                0
            },
            ..ctx_of(context)
        }),
{
}

// What holds of rollout settings

/// A preset that goes over some settings is found in them, and what it leaves open, or
/// does not speak of, is as it was. Going over them again changes nothing.
pub proof fn law_preset_goes_over(c: RolloutConfig, p: RolloutPreset)
    ensures
        ({
            let r = preset_over(c, p);
            &&& r.n_trials == p.n_trials
            &&& r.truncation_depth == p.truncation_depth
            &&& r.decision_ply == p.decision_ply
            &&& r.late_ply == p.late_ply
            &&& r.late_threshold == p.late_threshold
            &&& p.truncation_ply != -1 ==> r.truncation_ply == p.truncation_ply
            &&& p.truncation_ply == -1 ==> r.truncation_ply == c.truncation_ply
            &&& p.cube_ply != 0 ==> r.cube.ply == p.cube_ply
            &&& p.cube_ply == 0 ==> r.cube.ply == c.cube.ply
            &&& p.cube_late_ply != 0 ==> r.cube_late.ply == p.cube_late_ply
            &&& p.cube_late_ply == 0 ==> r.cube_late.ply == c.cube_late.ply
            &&& r.ultra_late_threshold == 9999
            &&& r.enable_vr == c.enable_vr
            &&& r.seed == c.seed
            &&& r.cubeful_trial_moves == c.cubeful_trial_moves
            &&& r.cubeful_late_threshold == c.cubeful_late_threshold
            &&& r.max_batches == c.max_batches
            &&& r.checker == c.checker
            &&& r.checker_late == c.checker_late
            &&& (TrialEval { ply: c.cube.ply, ..r.cube }) == c.cube
            &&& (TrialEval { ply: c.cube_late.ply, ..r.cube_late }) == c.cube_late
            &&& preset_over(r, p) == r
        }),
{
}

/// Each option of a rollout that is given sets its own setting and no other.
pub proof fn law_option_sets_its_own(c: RolloutConfig, o: RolloutOptions, n: u32, b: bool)
    ensures
        n <= 0x7fff_ffff ==> rollout_over(c, Some(RolloutOptions { trials: Some(n), ..o })) == (
        RolloutConfig { n_trials: n as i32, ..rollout_over(c, Some(o)) }),
        n <= 0x7fff_ffff ==> rollout_over(c, Some(RolloutOptions { truncation: Some(n), ..o })) == (
        RolloutConfig { truncation_depth: n as i32, ..rollout_over(c, Some(o)) }),
        rollout_over(c, Some(RolloutOptions { variance_reduction: Some(b), ..o })) == (RolloutConfig {
            enable_vr: if b {
                1
            } else {
                0
            },
            ..rollout_over(c, Some(o))
        }),
        rollout_over(c, Some(RolloutOptions { seed: Some(n), ..o })) == (RolloutConfig {
            seed: n,
            ..rollout_over(c, Some(o))
        }),
{
}

/// An option that is not given leaves its setting where no options do, and a rollout
/// with no options runs 1296 full trials, everything else as the engine library has it.
pub proof fn law_option_left_out(c: RolloutConfig, o: RolloutOptions)
    ensures
        ({
            let plain = rollout_over(c, None);
            let r = rollout_over(c, Some(o));
            &&& plain == (RolloutConfig {
                n_trials: 1296,
                truncation_depth: 0,
                ultra_late_threshold: 9999,
                ..c
            })
            &&& o.trials is None ==> r.n_trials == plain.n_trials
            &&& o.truncation is None ==> r.truncation_depth == plain.truncation_depth
            &&& o.variance_reduction is None ==> r.enable_vr == c.enable_vr
            &&& o.seed is None ==> r.seed == c.seed
            &&& (RolloutConfig {
                n_trials: plain.n_trials,
                truncation_depth: plain.truncation_depth,
                enable_vr: c.enable_vr,
                seed: c.seed,
                ..r
            }) == plain
        }),
{
}

/// A number of trials too large for a signed word comes out as the word with the same
/// bits: the same number but for the whole range of a word.
pub proof fn law_wrapped_word(n: u32)
    ensures
        i32::MIN <= wrapped(n) <= i32::MAX,
        wrapped(n) == n || wrapped(n) == n - 0x1_0000_0000,
{
}

} // verus!

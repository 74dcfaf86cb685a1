//! The engine pool: which engine a request gets, and what it is made of.
//!
//! An engine is kept under a key made of its level and options. A request whose
//! key is there gets the engine that was made for it; any other asks for one to be
//! made, which is kept once it has been.
use vstd::prelude::*;

use crate::catalog::{description, Describe};
#[allow(unused_imports)]
use crate::catalog::describes;
use crate::engine::{
    apply_options, apply_preset, plies_stamp, preset_2t, preset_3t, EngineGetError, LevelError,
    RolloutOptions,
};
#[allow(unused_imports)]
use crate::engine::{options_key, preset_over, roller_2t, roller_3t, rollout_over};
use crate::ffi::{Capi, CapiError, EngineConfig, RolloutConfig, KIND_PLY, KIND_ROLLOUT};
use crate::levels::{find_level, KnownLevel, ROLLOUT};
#[allow(unused_imports)]
use crate::levels::level_named;
use crate::text::{push_signed, quoted, same_text};
#[allow(unused_imports)]
use crate::text::{quoted_text, signed_decimal, strings};
use crate::weights::WeightSet;

verus! {

// What an engine is made of

/// What is known of an engine once it has been made.
#[derive(Debug)]
pub struct EngineHandle {
    pub supports_cancel: bool,
    pub plies_stamp: i32,
    /// The settings that the engine was made with.
    pub config_summary: String,
}

/// What is known of an engine, with its text as a sequence of characters.
pub struct HandleView {
    pub supports_cancel: bool,
    pub plies_stamp: int,
    pub config_summary: Seq<char>,
}

impl View for EngineHandle {
    type V = HandleView;

    open spec fn view(&self) -> HandleView {
        HandleView {
            supports_cancel: self.supports_cancel,
            plies_stamp: self.plies_stamp as int,
            config_summary: self.config_summary@,
        }
    }
}

/// The kind of engine that a level asks for.
pub open spec fn kind_of(level: KnownLevel) -> int {
    match level {
        KnownLevel::Ply(_) => KIND_PLY as int,
        _ => KIND_ROLLOUT as int,
    }
}

/// The search depth that a level asks for.
pub open spec fn plies_of(level: KnownLevel) -> int {
    match level {
        KnownLevel::Ply(n) => n as int,
        _ => 0,
    }
}

/// The rollout settings of a level: those that the engine library starts from,
/// changed as the level and its options say.
pub open spec fn rollout_of(
    level: KnownLevel,
    options: Option<RolloutOptions>,
    defaults: RolloutConfig,
) -> RolloutConfig {
    match level {
        KnownLevel::Ply(_) => defaults,
        KnownLevel::Roller2T => preset_over(defaults, roller_2t()),
        KnownLevel::Roller3T => preset_over(defaults, roller_3t()),
        KnownLevel::Rollout => rollout_over(defaults, options),
    }
}

/// The number of threads as it is logged; zero leaves it to the engine library.
pub open spec fn threads_text(threads: int) -> Seq<char> {
    if threads == 0 {
        "auto"@
    } else {
        signed_decimal(threads)
    }
}

/// The settings of an engine as they are logged.
pub open spec fn summary_text(level: KnownLevel, rollout: RolloutConfig, threads: int) -> Seq<char> {
    match level {
        KnownLevel::Ply(n) => "Plies="@ + signed_decimal(n as int) + " Threads="@ + threads_text(threads),
        _ => "Trials="@ + signed_decimal(rollout.n_trials as int) + " Trunc="@ + signed_decimal(
            rollout.truncation_depth as int,
        ) + " Decision="@ + signed_decimal(rollout.decision_ply as int) + "ply Cube="@ + signed_decimal(
            rollout.cube.ply as int,
        ) + "ply Threads="@ + threads_text(threads),
    }
}

/// What is known of an engine of the given level and options.
pub open spec fn handle_of(
    level: KnownLevel,
    options: Option<RolloutOptions>,
    defaults: RolloutConfig,
    threads: int,
) -> HandleView {
    HandleView {
        supports_cancel: !(level is Ply),
        plies_stamp: plies_of(level),
        config_summary: summary_text(level, rollout_of(level, options, defaults), threads),
    }
}

/// The configuration is the one that an engine of the given level and options is
/// made from.
pub open spec fn configures(
    config: EngineConfig,
    weights: WeightSet,
    level: KnownLevel,
    options: Option<RolloutOptions>,
    defaults: RolloutConfig,
    threads: i32,
) -> bool {
    &&& config.strategy_type@ == weights.strategy_type@
    &&& strings(config.weight_paths@) == strings(weights.paths@)
    &&& config.hidden_sizes@ == weights.hidden_sizes@
    &&& config.n_weights == weights.paths@.len()
    &&& match weights.bearoff {
        Some(path) => config.bearoff_db_path matches Some(p) && p@ == path@,
        None => config.bearoff_db_path is None,
    }
    &&& config.kind == kind_of(level)
    &&& config.n_plies == plies_of(level)
    &&& config.rollout == rollout_of(level, options, defaults)
    &&& config.filter_max_moves == 0
    &&& config.threads == threads
}

// Keys

/// The key of a level with its options.
pub open spec fn key_text(level_id: Seq<char>, options: Option<RolloutOptions>) -> Seq<char> {
    match options {
        Some(o) => level_id + "?"@ + options_key(o),
        None => level_id,
    }
}

fn cache_key(level_id: &str, options: &Option<RolloutOptions>) -> (r: String)
    ensures
        r@ == key_text(level_id@, *options),
{
    match options {
        Some(opts) => {
            let mut r = level_id.to_owned();
            r.append("?");
            r.append(opts.cache_key().as_str());
            r
        },
        None => level_id.to_owned(),
    }
}

/// An engine to be made: its configuration, and what is known of it.
#[derive(Debug)]
pub struct EnginePlan {
    pub level_id: String,
    pub options: Option<RolloutOptions>,
    pub key: String,
    pub config: EngineConfig,
    pub handle: EngineHandle,
}

/// An engine that is kept, under its key.
#[derive(Debug)]
pub struct PoolEntry {
    pub level_id: String,
    pub options: Option<RolloutOptions>,
    pub key: String,
    pub handle: EngineHandle,
}

/// What a request for an engine comes to.
#[derive(Debug)]
pub enum Lookup {
    /// The engine is there, at this place of the pool.
    Cached(usize),
    /// The engine is to be made.
    Build(EnginePlan),
}

/// The place of a key.
pub open spec fn key_index(entries: Seq<PoolEntry>, key: Seq<char>) -> Option<int>
    decreases entries.len(),
{
    if entries.len() == 0 {
        None
    } else {
        match key_index(entries.drop_last(), key) {
            Some(i) => Some(i),
            None => if entries.last().key@ == key {
                Some(entries.len() - 1)
            } else {
                None
            },
        }
    }
}

/// The options of a request: none, or those of a rollout. Options on any other
/// level are refused before it is asked what they say.
pub open spec fn accepted(
    level_id: Seq<char>,
    options: Option<Result<RolloutOptions, String>>,
) -> Result<Option<RolloutOptions>, Seq<char>> {
    match options {
        None => Ok(None),
        Some(read) => if level_id != ROLLOUT@ {
            Err("level "@ + quoted_text(level_id) + " is not configurable"@)
        } else {
            match read {
                Ok(o) => Ok(Some(o)),
                Err(message) => Err(message@),
            }
        },
    }
}

/// The options of a request, from what reading them gave.
pub fn parse_options(level_id: &str, options: Option<Result<RolloutOptions, String>>) -> (r: Result<
    Option<RolloutOptions>,
    LevelError,
>)
    ensures
        match accepted(level_id@, options) {
            Ok(o) => r == Ok::<Option<RolloutOptions>, LevelError>(o),
            Err(message) => r matches Err(LevelError::InvalidOptions(m)) && m@ == message,
        },
{
    match options {
        None => Ok(None),
        Some(read) => {
            if !same_text(level_id, ROLLOUT) {
                let mut message = String::from_str("level ");
                message.append(quoted(level_id).as_str());
                message.append(" is not configurable");
                return Err(LevelError::InvalidOptions(message));
            }
            match read {
                Ok(opts) => Ok(Some(opts)),
                Err(message) => Err(LevelError::InvalidOptions(message)),
            }
        },
    }
}

// The pool

/// The engines that have been made, and what the next ones are made from.
#[derive(Debug)]
pub struct EnginePool {
    pub capi: Capi,
    pub weights: WeightSet,
    pub threads: i32,
    pub handles: Vec<PoolEntry>,
}

/// An engine is what its level and options ask for, and stands under their key.
pub open spec fn entry_fits(entry: PoolEntry, defaults: RolloutConfig, threads: int) -> bool {
    &&& level_named(entry.level_id@) is Some
    &&& entry.options is Some ==> entry.level_id@ == ROLLOUT@
    &&& entry.key@ == key_text(entry.level_id@, entry.options)
    &&& entry.handle@ == handle_of(level_named(entry.level_id@)->0, entry.options, defaults, threads)
}

/// A plan is what its level and options ask for.
pub open spec fn plan_fits(plan: EnginePlan, pool: EnginePool) -> bool {
    let level = level_named(plan.level_id@)->0;
    let defaults = pool.capi.rollout_config_defaults;
    &&& level_named(plan.level_id@) is Some
    &&& plan.options is Some ==> plan.level_id@ == ROLLOUT@
    &&& plan.key@ == key_text(plan.level_id@, plan.options)
    &&& plan.handle@ == handle_of(level, plan.options, defaults, pool.threads as int)
    &&& configures(plan.config, pool.weights, level, plan.options, defaults, pool.threads)
}

/// The pool has made no engine, and makes them from what is given.
pub open spec fn starts_from(pool: EnginePool, capi: Capi, weights: WeightSet, threads: i32) -> bool {
    &&& pool.capi == capi
    &&& pool.weights == weights
    &&& pool.threads == threads
    &&& pool.handles@.len() == 0
}

/// What a request for an engine comes to: options that are refused, the engine that is
/// kept under the key, a level that is not known, or the plan of an engine to be made.
pub open spec fn looked_up(
    r: Result<Lookup, LevelError>,
    pool: EnginePool,
    level_id: Seq<char>,
    options: Option<Result<RolloutOptions, String>>,
) -> bool {
    match accepted(level_id, options) {
        Err(message) => r matches Err(LevelError::InvalidOptions(m)) && m@ == message,
        Ok(opts) => match key_index(pool.handles@, key_text(level_id, opts)) {
            Some(i) => r matches Ok(Lookup::Cached(k)) && k == i,
            None => match level_named(level_id) {
                None => r matches Err(LevelError::UnknownLevel(l)) && l@ == level_id,
                Some(_) => r matches Ok(Lookup::Build(plan)) && plan_fits(plan, pool) && plan.level_id@
                    == level_id && plan.options == opts,
            },
        },
    }
}

/// What making an engine comes to: it is kept behind those that were there, or they stay
/// as they were and the failure is told.
pub open spec fn kept(
    r: Result<usize, EngineGetError>,
    before: Seq<PoolEntry>,
    after: Seq<PoolEntry>,
    plan: EnginePlan,
    outcome: Result<(), CapiError>,
) -> bool {
    match outcome {
        Ok(()) => r == Ok::<usize, EngineGetError>(before.len() as usize) && after == before.push(
            PoolEntry {
                level_id: plan.level_id,
                options: plan.options,
                key: plan.key,
                handle: plan.handle,
            },
        ),
        Err(e) => r == Err::<usize, EngineGetError>(EngineGetError::Create(e)) && after == before,
    }
}

impl EnginePool {
    /// Every engine is what it was made for, and no key stands twice.
    pub open spec fn wf(&self) -> bool {
        &&& self.weights.wf()
        &&& forall|i: int|
            0 <= i < self.handles@.len() ==> entry_fits(
                #[trigger] self.handles@[i],
                self.capi.rollout_config_defaults,
                self.threads as int,
            )
        &&& forall|i: int, j: int|
            0 <= i < j < self.handles@.len() ==> (#[trigger] self.handles@[i]).key@ != (
            #[trigger] self.handles@[j]).key@
    }

    /// A pool with no engine in it.
    pub fn new(capi: Capi, weights: WeightSet, threads: i32) -> (r: EnginePool)
        requires
            weights.wf(),
        ensures
            r.wf(),
            starts_from(r, capi, weights, threads),
    {
        EnginePool { capi, weights, threads, handles: Vec::new() }
    }

    /// What the engine says of itself.
    pub fn describe(&self, build: &str) -> (r: Describe)
        ensures
            describes(r, self.capi.version@, build@),
    {
        description(self.capi.version.as_str(), build)
    }

    fn find_key(&self, key: &str) -> (r: Option<usize>)
        ensures
            match r {
                Some(i) => key_index(self.handles@, key@) == Some(i as int),
                None => key_index(self.handles@, key@) is None,
            },
    {
        let mut i: usize = 0;
        while i < self.handles.len()
            invariant
                i <= self.handles.len(),
                key_index(self.handles@.take(i as int), key@) is None,
            decreases self.handles.len() - i,
        {
            proof {
                let next = self.handles@.take(i + 1);
                assert(next.drop_last() == self.handles@.take(i as int));
                assert(next.last() == self.handles@[i as int]);
            }
            if same_text(self.handles[i].key.as_str(), key) {
                proof {
                    lemma_key_index_take(self.handles@, key@, i + 1);
                }
                return Some(i);
            }
            i = i + 1;
        }
        assert(self.handles@.take(i as int) == self.handles@);
        None
    }

    /// The engine of a level and its options: the one that is there, or the plan
    /// of one to be made.
    pub fn get(&self, level_id: &str, options: Option<Result<RolloutOptions, String>>) -> (r: Result<
        Lookup,
        LevelError,
    >)
        requires
            self.wf(),
        ensures
            looked_up(r, *self, level_id@, options),
    {
        let opts = match parse_options(level_id, options) {
            Ok(opts) => opts,
            Err(e) => {
                return Err(e);
            },
        };
        let key = cache_key(level_id, &opts);
        match self.find_key(key.as_str()) {
            Some(i) => Ok(Lookup::Cached(i)),
            None => match self.construct(level_id, opts) {
                Ok(plan) => Ok(Lookup::Build(plan)),
                Err(e) => Err(e),
            },
        }
    }

    /// The plan of an engine.
    fn construct(&self, level_id: &str, options: Option<RolloutOptions>) -> (r: Result<
        EnginePlan,
        LevelError,
    >)
        requires
            self.wf(),
            options is Some ==> level_id@ == ROLLOUT@,
        ensures
            match level_named(level_id@) {
                None => r matches Err(LevelError::UnknownLevel(l)) && l@ == level_id@,
                Some(_) => r matches Ok(plan) && plan_fits(plan, *self) && plan.level_id@ == level_id@
                    && plan.options == options,
            },
    {
        let mut rollout = self.capi.rollout_config_defaults;
        let level = match find_level(level_id) {
            Some(level) => level,
            None => {
                return Err(LevelError::UnknownLevel(level_id.to_owned()));
            },
        };
        let kind: i32;
        let n_plies: i32;
        let supports_cancel: bool;
        match level {
            KnownLevel::Ply(n) => {
                assert(n <= 4);
                kind = KIND_PLY;
                n_plies = n as i32;
                supports_cancel = false;
            },
            KnownLevel::Roller2T => {
                apply_preset(&mut rollout, &preset_2t());
                kind = KIND_ROLLOUT;
                n_plies = 0;
                supports_cancel = true;
            },
            KnownLevel::Roller3T => {
                apply_preset(&mut rollout, &preset_3t());
                kind = KIND_ROLLOUT;
                n_plies = 0;
                supports_cancel = true;
            },
            KnownLevel::Rollout => {
                apply_options(&mut rollout, options);
                kind = KIND_ROLLOUT;
                n_plies = 0;
                supports_cancel = true;
            },
        }
        let config = EngineConfig {
            strategy_type: self.weights.strategy_type.clone(),
            weight_paths: self.weights.paths.clone(),
            hidden_sizes: self.weights.hidden_sizes.clone(),
            n_weights: self.weights.paths.len() as i32,
            bearoff_db_path: match &self.weights.bearoff {
                Some(path) => Some(path.clone()),
                None => None,
            },
            kind,
            n_plies,
            rollout,
            filter_max_moves: 0,
            threads: self.threads,
        };
        let config_summary = summary(level, &rollout, self.threads);
        let handle = EngineHandle {
            supports_cancel,
            plies_stamp: plies_stamp(level_id),
            config_summary,
        };
        Ok(
            EnginePlan {
                level_id: level_id.to_owned(),
                options,
                key: cache_key(level_id, &options),
                config,
                handle,
            },
        )
    }

    /// Keeps an engine that has been made, or says why it could not be.
    pub fn settle(&mut self, plan: EnginePlan, outcome: Result<(), CapiError>) -> (r: Result<
        usize,
        EngineGetError,
    >)
        requires
            old(self).wf(),
            plan_fits(plan, *old(self)),
            key_index(old(self).handles@, plan.key@) is None,
        ensures
            final(self).wf(),
            final(self).capi == old(self).capi,
            final(self).weights == old(self).weights,
            final(self).threads == old(self).threads,
            kept(r, old(self).handles@, final(self).handles@, plan, outcome),
    {
        match outcome {
            Ok(()) => {
                let at = self.handles.len();
                let ghost before = self.handles@;
                proof {
                    lemma_key_absent(before, plan.key@);
                }
                self.handles.push(
                    PoolEntry {
                        level_id: plan.level_id,
                        options: plan.options,
                        key: plan.key,
                        handle: plan.handle,
                    },
                );
                Ok(at)
            },
            Err(e) => Err(EngineGetError::Create(e)),
        }
    }
}

fn summary(level: KnownLevel, rollout: &RolloutConfig, threads: i32) -> (r: String)
    requires
        level matches KnownLevel::Ply(n) ==> n <= 4,
    ensures
        r@ == summary_text(level, *rollout, threads as int),
{
    let mut r: String;
    match level {
        KnownLevel::Ply(n) => {
            r = String::from_str("Plies=");
            push_signed(&mut r, n as i64);
            r.append(" Threads=");
        },
        _ => {
            r = String::from_str("Trials=");
            push_signed(&mut r, rollout.n_trials as i64);
            r.append(" Trunc=");
            push_signed(&mut r, rollout.truncation_depth as i64);
            r.append(" Decision=");
            push_signed(&mut r, rollout.decision_ply as i64);
            r.append("ply Cube=");
            push_signed(&mut r, rollout.cube.ply as i64);
            r.append("ply Threads=");
        },
    }
    if threads == 0 {
        r.append("auto");
    } else {
        push_signed(&mut r, threads as i64);
    }
    r
}

proof fn lemma_key_index_take(entries: Seq<PoolEntry>, key: Seq<char>, k: int)
    requires
        0 <= k <= entries.len(),
        key_index(entries.take(k), key) is Some,
    ensures
        key_index(entries, key) == key_index(entries.take(k), key),
    decreases entries.len(),
{
    if k == entries.len() {
        assert(entries.take(k) == entries);
    } else {
        assert(entries.drop_last().take(k) == entries.take(k));
        lemma_key_index_take(entries.drop_last(), key, k);
    }
}

pub(crate) proof fn lemma_key_absent(entries: Seq<PoolEntry>, key: Seq<char>)
    ensures
        key_index(entries, key) is None ==> forall|i: int|
            0 <= i < entries.len() ==> (#[trigger] entries[i]).key@ != key,
        key_index(entries, key) matches Some(i) ==> 0 <= i < entries.len() && entries[i].key@ == key,
    decreases entries.len(),
{
    if entries.len() > 0 {
        let rest = entries.drop_last();
        lemma_key_absent(rest, key);
        if key_index(entries, key) is None {
            assert forall|i: int| 0 <= i < entries.len() implies (#[trigger] entries[i]).key@ != key by {
                if i < rest.len() {
                    assert(rest[i] == entries[i]);
                }
            }
        }
    }
}

} // verus!

//! What holds of levels, keys and the engine pool as a whole.
use vstd::prelude::*;

#[allow(unused_imports)]
use crate::catalog::{catalog, LevelKind};
#[allow(unused_imports)]
use crate::engine::{
    flag_text, number_text, options_key, stamp_of, EngineGetError, LevelError, RolloutOptions,
};
#[allow(unused_imports)]
use crate::ffi::{Capi, CapiError, EngineConfig, RolloutConfig, KIND_PLY, KIND_ROLLOUT};
#[allow(unused_imports)]
use crate::laws::law_integer_reads_back;
#[allow(unused_imports)]
use crate::levels::{
    law_roller_named, lemma_names, level_named, level_names, KnownLevel, PLY_1, PLY_2, PLY_3, PLY_4, ROLLER_2T,
    ROLLER_3T, ROLLOUT,
};
#[allow(unused_imports)]
use crate::pool::{
    accepted, configures, entry_fits, handle_of, kept, key_index, key_text, kind_of,
    lemma_key_absent, looked_up, plan_fits, plies_of, rollout_of, starts_from, summary_text,
    threads_text, EnginePlan,
    EnginePool, Lookup, PoolEntry,
};
#[allow(unused_imports)]
use crate::roundtrip::lemma_decimal;
#[allow(unused_imports)]
use crate::text::{decimal, integer_of, is_digit, signed_decimal, strings};
#[allow(unused_imports)]
use crate::weights::WeightSet;

verus! {

// Keys

/// Two texts that are cut at the first `sep` in the same way.
proof fn lemma_cut(x: Seq<char>, y: Seq<char>, p: Seq<char>, q: Seq<char>, sep: char)
    requires
        x + p == y + q,
        !x.contains(sep),
        !y.contains(sep),
        p.len() == 0 || p[0] == sep,
        q.len() == 0 || q[0] == sep,
    ensures
        x == y,
        p == q,
{
    let all = x + p;
    assert(all.len() == y.len() + q.len());
    if x.len() < y.len() {
        assert(all[x.len() as int] == p[0]);
        assert((y + q)[x.len() as int] == y[x.len() as int]);
        assert(y.contains(sep));
    } else if y.len() < x.len() {
        assert((y + q)[y.len() as int] == q[0]);
        assert(all[y.len() as int] == x[y.len() as int]);
        assert(x.contains(sep));
    }
    assert(x == all.take(x.len() as int));
    assert(y == (y + q).take(x.len() as int));
    assert(p == all.skip(x.len() as int));
    assert(q == (y + q).skip(x.len() as int));
}

proof fn lemma_strip(p: Seq<char>, x: Seq<char>, y: Seq<char>)
    requires
        p + x == p + y,
    ensures
        x == y,
{
    assert(x == (p + x).skip(p.len() as int));
    assert(y == (p + y).skip(p.len() as int));
}

proof fn lemma_number_text(n: Option<u32>)
    ensures
        !number_text(n).contains(';'),
{
    reveal_strlit("Some(");
    reveal_strlit(")");
    reveal_strlit("None");
    if let Some(k) = n {
        let d = decimal(k as nat);
        let s = number_text(n);
        lemma_decimal(k as nat);
        assert forall|i: int| 0 <= i < s.len() implies s[i] != ';' by {
            if 5 <= i < 5 + d.len() {
                assert(s[i] == d[i - 5]);
                assert(is_digit(d[i - 5]));
            }
        }
    }
}

proof fn lemma_number_text_tells(a: Option<u32>, b: Option<u32>)
    requires
        number_text(a) == number_text(b),
    ensures
        a == b,
{
    reveal_strlit("Some(");
    reveal_strlit(")");
    reveal_strlit("None");
    match (a, b) {
        (Some(x), Some(y)) => {
            let dx = decimal(x as nat);
            let dy = decimal(y as nat);
            lemma_decimal(x as nat);
            lemma_decimal(y as nat);
            let sx = number_text(a);
            let sy = number_text(b);
            assert(sx.subrange(5, sx.len() - 1) == dx);
            assert(sy.subrange(5, sy.len() - 1) == dy);
        },
        (Some(x), None) => {
            assert(number_text(a)[0] == 'S');
            assert(number_text(b)[0] == 'N');
        },
        (None, Some(y)) => {
            assert(number_text(a)[0] == 'N');
            assert(number_text(b)[0] == 'S');
        },
        (None, None) => {},
    }
}

proof fn lemma_flag_text(b: Option<bool>)
    ensures
        !flag_text(b).contains(';'),
{
    reveal_strlit("Some(true)");
    reveal_strlit("Some(false)");
    reveal_strlit("None");
}

proof fn lemma_flag_text_tells(a: Option<bool>, b: Option<bool>)
    requires
        flag_text(a) == flag_text(b),
    ensures
        a == b,
{
    reveal_strlit("Some(true)");
    reveal_strlit("Some(false)");
    reveal_strlit("None");
    assert("Some(true)"@.len() == 10 && "Some(false)"@.len() == 11 && "None"@.len() == 4);
}

proof fn lemma_field(
    name: Seq<char>,
    x: Seq<char>,
    y: Seq<char>,
    p: Seq<char>,
    q: Seq<char>,
)
    requires
        name + (x + p) == name + (y + q),
        !x.contains(';'),
        !y.contains(';'),
        p.len() > 0 && p[0] == ';',
        q.len() > 0 && q[0] == ';',
    ensures
        x == y,
        p == q,
{
    lemma_strip(name, x + p, y + q);
    lemma_cut(x, y, p, q, ';');
}

/// The key of some options from the seed on.
spec fn from_seed(o: RolloutOptions) -> Seq<char> {
    ";seed="@ + number_text(o.seed)
}

/// The key of some options from the variance reduction on.
spec fn from_flag(o: RolloutOptions) -> Seq<char> {
    ";vr="@ + (flag_text(o.variance_reduction) + from_seed(o))
}

/// The key of some options from the truncation on.
spec fn from_truncation(o: RolloutOptions) -> Seq<char> {
    ";truncation="@ + (number_text(o.truncation) + from_flag(o))
}

proof fn lemma_key_parts(o: RolloutOptions)
    ensures
        options_key(o) == "trials="@ + (number_text(o.trials) + from_truncation(o)),
        from_truncation(o).len() > 0 && from_truncation(o)[0] == ';',
        from_flag(o).len() > 0 && from_flag(o)[0] == ';',
        from_seed(o).len() > 0 && from_seed(o)[0] == ';',
{
    reveal_strlit(";truncation=");
    reveal_strlit(";vr=");
    reveal_strlit(";seed=");
    let n = number_text(o.trials);
    let m = number_text(o.truncation);
    let f = flag_text(o.variance_reduction);
    let g = number_text(o.seed);
    assert(from_flag(o) == ";vr="@ + f + ";seed="@ + g);
    assert(from_truncation(o) == ";truncation="@ + m + ";vr="@ + f + ";seed="@ + g);
    assert(options_key(o) == "trials="@ + (n + (";truncation="@ + m + ";vr="@ + f + ";seed="@ + g)));
}

/// Options that differ have different keys.
pub proof fn law_options_keys_distinct(a: RolloutOptions, b: RolloutOptions)
    requires
        options_key(a) == options_key(b),
    ensures
        a == b,
{
    lemma_key_parts(a);
    lemma_key_parts(b);
    lemma_number_text(a.trials);
    lemma_number_text(b.trials);
    lemma_field(
        "trials="@,
        number_text(a.trials),
        number_text(b.trials),
        from_truncation(a),
        from_truncation(b),
    );
    lemma_number_text_tells(a.trials, b.trials);
    lemma_number_text(a.truncation);
    lemma_number_text(b.truncation);
    lemma_field(
        ";truncation="@,
        number_text(a.truncation),
        number_text(b.truncation),
        from_flag(a),
        from_flag(b),
    );
    lemma_number_text_tells(a.truncation, b.truncation);
    lemma_flag_text(a.variance_reduction);
    lemma_flag_text(b.variance_reduction);
    lemma_field(
        ";vr="@,
        flag_text(a.variance_reduction),
        flag_text(b.variance_reduction),
        from_seed(a),
        from_seed(b),
    );
    lemma_flag_text_tells(a.variance_reduction, b.variance_reduction);
    lemma_strip(";seed="@, number_text(a.seed), number_text(b.seed));
    lemma_number_text_tells(a.seed, b.seed);
}

proof fn lemma_no_question_mark(id: Seq<char>)
    requires
        level_named(id) is Some,
    ensures
        !id.contains('?'),
{
    reveal_strlit("1ply");
    reveal_strlit("2ply");
    reveal_strlit("3ply");
    reveal_strlit("4ply");
    reveal_strlit("2T");
    reveal_strlit("3T");
    reveal_strlit("rollout");
}

/// The key of a known level tells the level and its options.
pub proof fn law_keys_distinct(
    level_a: Seq<char>,
    options_a: Option<RolloutOptions>,
    level_b: Seq<char>,
    options_b: Option<RolloutOptions>,
)
    requires
        level_named(level_a) is Some,
        level_named(level_b) is Some,
        key_text(level_a, options_a) == key_text(level_b, options_b),
    ensures
        level_a == level_b,
        options_a == options_b,
{
    reveal_strlit("?");
    lemma_no_question_mark(level_a);
    lemma_no_question_mark(level_b);
    let rest = |o: Option<RolloutOptions>|
        match o {
            Some(o) => "?"@ + options_key(o),
            None => Seq::empty(),
        };
    assert(key_text(level_a, options_a) == level_a + rest(options_a));
    assert(key_text(level_b, options_b) == level_b + rest(options_b));
    lemma_cut(level_a, level_b, rest(options_a), rest(options_b), '?');
    match (options_a, options_b) {
        (Some(a), Some(b)) => {
            lemma_strip("?"@, options_key(a), options_key(b));
            law_options_keys_distinct(a, b);
        },
        (Some(a), None) => {
            assert(rest(options_a)[0] == '?');
        },
        (None, Some(b)) => {
            assert(rest(options_b)[0] == '?');
        },
        (None, None) => {},
    }
}

// The pool

/// A request for a known level that finds an engine finds the one that was made
/// for that level and those options.
pub proof fn law_cached_engine_fits(
    pool: EnginePool,
    level_id: Seq<char>,
    options: Option<RolloutOptions>,
)
    requires
        pool.wf(),
        level_named(level_id) is Some,
        key_index(pool.handles@, key_text(level_id, options)) is Some,
    ensures
        ({
            let at = key_index(pool.handles@, key_text(level_id, options))->0;
            &&& 0 <= at < pool.handles@.len()
            &&& pool.handles@[at].level_id@ == level_id
            &&& pool.handles@[at].options == options
            &&& pool.handles@[at].handle@ == handle_of(
                level_named(level_id)->0,
                options,
                pool.capi.rollout_config_defaults,
                pool.threads as int,
            )
        }),
{
    let at = key_index(pool.handles@, key_text(level_id, options))->0;
    lemma_key_absent(pool.handles@, key_text(level_id, options));
    let entry = pool.handles@[at];
    assert(entry_fits(entry, pool.capi.rollout_config_defaults, pool.threads as int));
    law_keys_distinct(entry.level_id@, entry.options, level_id, options);
}

/// An engine that is kept is found again under its key, and those kept before it
/// stay where they were.
pub proof fn law_kept_engine_found(entries: Seq<PoolEntry>, entry: PoolEntry, key: Seq<char>)
    requires
        key_index(entries, entry.key@) is None,
    ensures
        key_index(entries.push(entry), entry.key@) == Some(entries.len() as int),
        key != entry.key@ ==> key_index(entries.push(entry), key) == key_index(entries, key),
{
    assert(entries.push(entry).drop_last() == entries);
}

// The catalog

/// A level is known exactly if it is advertised.
pub proof fn law_known_is_advertised(id: Seq<char>)
    ensures
        level_named(id) is Some <==> exists|i: int|
            0 <= i < catalog().len() && (#[trigger] catalog()[i]).id == id,
{
    lemma_names();
    let names = level_names();
    assert forall|i: int| 0 <= i < 7 implies (#[trigger] catalog()[i]).id == names[i] && level_named(
        names[i],
    ) is Some by {
        assert(names[i] == names[i]);
    }
    if level_named(id) is Some {
        assert(names[0] == PLY_1@ && names[1] == PLY_2@ && names[2] == PLY_3@ && names[3] == PLY_4@);
        assert(names[4] == ROLLER_2T@ && names[5] == ROLLER_3T@ && names[6] == ROLLOUT@);
        let i: int = if id == PLY_1@ {
            0
        } else if id == PLY_2@ {
            1
        } else if id == PLY_3@ {
            2
        } else if id == PLY_4@ {
            3
        } else if id == ROLLER_2T@ {
            4
        } else if id == ROLLER_3T@ {
            5
        } else {
            6
        };
        assert(catalog()[i].id == id);
    }
}

/// What a level is advertised with is what an engine of it is made with: its
/// depth, its trials, its truncation and, where the level fixes them, the depths of
/// its decisions; and whether it can be cancelled.
pub proof fn law_engine_as_advertised(i: int, defaults: RolloutConfig, threads: int)
    requires
        0 <= i < catalog().len(),
    ensures
        ({
            let shown = catalog()[i];
            let level = level_named(shown.id)->0;
            let rollout = rollout_of(level, None, defaults);
            &&& level_named(shown.id) is Some
            &&& shown.methods is None
            &&& shown.ply_depth is Some <==> kind_of(level) == KIND_PLY
            &&& shown.rollout is Some <==> kind_of(level) == KIND_ROLLOUT
            &&& shown.ply_depth matches Some(n) ==> n == plies_of(level) && n == stamp_of(shown.id)
            &&& shown.rollout matches Some(p) ==> p.trials == rollout.n_trials && p.truncation
                == rollout.truncation_depth && stamp_of(shown.id) == 0
            &&& level == KnownLevel::Roller2T || level == KnownLevel::Roller3T
                ==> shown.rollout->0.checker_ply == Some(rollout.decision_ply as u32)
            &&& level == KnownLevel::Roller2T ==> shown.rollout->0.cube_ply == Some(
                rollout.cube.ply as u32,
            )
            &&& shown.supports_cancel == handle_of(level, None, defaults, threads).supports_cancel
            &&& shown.supports_progress == shown.supports_cancel
        }),
{
    lemma_names();
    assert(level_names()[i] == level_names()[i]);
}

/// A level takes options exactly if it is advertised as configurable.
pub proof fn law_options_where_configurable(i: int, options: RolloutOptions)
    requires
        0 <= i < catalog().len(),
    ensures
        catalog()[i].configurable <==> accepted(catalog()[i].id, Some(Ok(options))) is Ok,
{
    lemma_names();
    assert(level_names()[i] == level_names()[i]);
    reveal_strlit("rollout");
    reveal_strlit("1ply");
    reveal_strlit("2ply");
    reveal_strlit("3ply");
    reveal_strlit("4ply");
    reveal_strlit("2T");
    reveal_strlit("3T");
}

/// How a level is advertised follows from what it is: a ply level by its depth, a roller
/// under its name behind the model's with the depth of its decisions, a rollout as the
/// one whose settings a request may change.
pub proof fn law_advertised_by_kind(i: int)
    requires
        0 <= i < catalog().len(),
    ensures
        ({
            let shown = catalog()[i];
            let level = level_named(shown.id)->0;
            &&& shown.kind == LevelKind::Ply <==> level is Ply
            &&& shown.kind == LevelKind::Roller <==> level == KnownLevel::Roller2T
            &&& shown.kind == LevelKind::RollerPlus <==> level == KnownLevel::Roller3T
            &&& shown.kind == LevelKind::Rollout <==> level == KnownLevel::Rollout
            &&& shown.display_name is Some <==> shown.kind == LevelKind::Roller || shown.kind
                == LevelKind::RollerPlus
            &&& shown.display_name matches Some(name) ==> name == "Sage "@ + shown.id
            &&& shown.configurable <==> shown.kind == LevelKind::Rollout
            &&& shown.rollout is None <==> shown.kind == LevelKind::Ply
            &&& shown.rollout matches Some(p) ==> p.variance_reduction && p.checker_ply is Some
                && p.cube_ply == p.checker_ply
            &&& shown.supports_cancel <==> shown.kind != LevelKind::Ply
        }),
{
    lemma_names();
    assert(level_names()[i] == level_names()[i]);
    reveal_strlit("Sage ");
    reveal_strlit("Sage 2T");
    reveal_strlit("Sage 3T");
    reveal_strlit("2T");
    reveal_strlit("3T");
    assert("Sage 2T"@ =~= "Sage "@ + ROLLER_2T@);
    assert("Sage 3T"@ =~= "Sage "@ + ROLLER_3T@);
}

/// No level is advertised twice, and the ply levels come first, by their depth.
pub proof fn law_catalog_order(i: int, j: int)
    requires
        0 <= i < j < catalog().len(),
    ensures
        catalog()[i].id != catalog()[j].id,
        catalog()[j].ply_depth matches Some(m) ==> (catalog()[i].ply_depth matches Some(n) && n < m),
{
    lemma_names();
    assert(level_names()[i] == level_names()[i]);
    assert(level_names()[j] == level_names()[j]);
}

/// A roller makes its decisions to the depth in its name, whatever the engine library
/// starts from.
pub proof fn law_roller_depth(id: Seq<char>, n: u32, defaults: RolloutConfig)
    requires
        n == 2 || n == 3,
        id == decimal(n as nat) + "T"@,
    ensures
        level_named(id) is Some,
        rollout_of(level_named(id)->0, None, defaults).decision_ply == n,
        kind_of(level_named(id)->0) == KIND_ROLLOUT,
{
    law_roller_named(id);
}

/// What an engine is made from: the weights as they stand, one size for each; the
/// bearoff database where there is one; the threads that were asked for; a search of
/// its depth for a ply level, with the rollout settings untouched, and a rollout for
/// every other, with no depth.
pub proof fn law_engine_made_from(
    config: EngineConfig,
    weights: WeightSet,
    level: KnownLevel,
    options: Option<RolloutOptions>,
    defaults: RolloutConfig,
    threads: i32,
)
    requires
        weights.wf(),
        configures(config, weights, level, options, defaults, threads),
    ensures
        config.strategy_type@ == weights.strategy_type@,
        config.weight_paths@.len() == config.n_weights,
        config.hidden_sizes@.len() == config.n_weights,
        forall|i: int|
            0 <= i < config.n_weights ==> (#[trigger] config.weight_paths@[i])@ == weights.paths@[i]@,
        forall|i: int|
            0 <= i < config.n_weights ==> #[trigger] config.hidden_sizes@[i] == weights.hidden_sizes@[i],
        config.bearoff_db_path is Some <==> weights.bearoff is Some,
        config.bearoff_db_path is Some ==> config.bearoff_db_path->0@ == weights.bearoff->0@,
        config.threads == threads,
        config.filter_max_moves == 0,
        level matches KnownLevel::Ply(n) ==> config.kind == 1 && config.n_plies == n && config.rollout
            == defaults,
        !(level is Ply) ==> config.kind == 2 && config.n_plies == 0,
{
    let all = strings(config.weight_paths@);
    assert(all.len() == strings(weights.paths@).len());
    assert forall|i: int| 0 <= i < config.n_weights implies (#[trigger] config.weight_paths@[i])@
        == weights.paths@[i]@ by {
        assert(all[i] == strings(weights.paths@)[i]);
    }
}

/// What is known of an engine agrees with what it is made from: results are stamped
/// with the depth that it searches to, and it can be cancelled exactly if it rolls out.
pub proof fn law_handle_agrees(
    config: EngineConfig,
    weights: WeightSet,
    level: KnownLevel,
    options: Option<RolloutOptions>,
    defaults: RolloutConfig,
    threads: i32,
)
    requires
        configures(config, weights, level, options, defaults, threads),
    ensures
        ({
            let handle = handle_of(level, options, defaults, threads as int);
            &&& handle.plies_stamp == config.n_plies
            &&& handle.supports_cancel <==> config.kind == KIND_ROLLOUT
            &&& !handle.supports_cancel <==> config.kind == KIND_PLY
            &&& handle.config_summary == summary_text(level, config.rollout, config.threads as int)
        }),
{
}

/// A request for a known level is never turned away: it gets the engine that was made
/// for that level and those options, or, where none was, the plan of one.
pub proof fn law_known_level_served(
    r: Result<Lookup, LevelError>,
    pool: EnginePool,
    level_id: Seq<char>,
    options: Option<RolloutOptions>,
)
    requires
        pool.wf(),
        level_named(level_id) is Some,
        options is Some ==> level_id == ROLLOUT@,
        looked_up(
            r,
            pool,
            level_id,
            match options {
                Some(o) => Some(Ok(o)),
                None => None,
            },
        ),
    ensures
        match r {
            Ok(Lookup::Cached(k)) => k < pool.handles@.len() && pool.handles@[k as int].level_id@ == level_id
                && pool.handles@[k as int].options == options,
            Ok(Lookup::Build(plan)) => plan.level_id@ == level_id && plan.options == options && forall|
                i: int,
            |
                0 <= i < pool.handles@.len() ==> !((#[trigger] pool.handles@[i]).level_id@ == level_id
                    && pool.handles@[i].options == options),
            Err(_) => false,
        },
{
    let key = key_text(level_id, options);
    lemma_key_absent(pool.handles@, key);
    if let Some(at) = key_index(pool.handles@, key) {
        law_cached_engine_fits(pool, level_id, options);
    } else {
        assert forall|i: int| 0 <= i < pool.handles@.len() implies !((
        #[trigger] pool.handles@[i]).level_id@ == level_id && pool.handles@[i].options == options) by {
            assert(entry_fits(
                pool.handles@[i],
                pool.capi.rollout_config_defaults,
                pool.threads as int,
            ));
        }
    }
}

/// A request is turned away for its options exactly if it gives some that its level does
/// not take or that cannot be read, and for its level, where none is kept under that
/// name, exactly if the level is not known.
pub proof fn law_turned_away(
    r: Result<Lookup, LevelError>,
    pool: EnginePool,
    level_id: Seq<char>,
    options: Option<Result<RolloutOptions, String>>,
)
    requires
        looked_up(r, pool, level_id, options),
    ensures
        r matches Err(LevelError::InvalidOptions(_)) <==> options is Some && (level_id != ROLLOUT@
            || options->0 is Err),
        options is None && (forall|i: int|
            0 <= i < pool.handles@.len() ==> (#[trigger] pool.handles@[i]).key@ != level_id) ==> (r matches Err(
            LevelError::UnknownLevel(_),
        ) <==> level_named(level_id) is None),
        r matches Err(LevelError::UnknownLevel(l)) ==> l@ == level_id,
{
    lemma_key_absent(pool.handles@, level_id);
}

/// An engine is made once: when one has been made and kept, the next request for its
/// level and options gets it, and those kept before are got as they were. One that could
/// not be made is not kept, and the reason is told.
pub proof fn law_engine_made_once(
    pool: EnginePool,
    next: EnginePool,
    plan: EnginePlan,
    outcome: Result<(), CapiError>,
    made: Result<usize, EngineGetError>,
    key: Seq<char>,
)
    requires
        plan_fits(plan, pool),
        key_index(pool.handles@, plan.key@) is None,
        pool.handles@.len() <= usize::MAX,
        kept(made, pool.handles@, next.handles@, plan, outcome),
    ensures
        outcome is Ok ==> (made matches Ok(k) && key_index(
            next.handles@,
            key_text(plan.level_id@, plan.options),
        ) == Some(k as int) && next.handles@[k as int].handle@ == plan.handle@),
        outcome is Ok && key != plan.key@ ==> key_index(next.handles@, key) == key_index(
            pool.handles@,
            key,
        ),
        outcome matches Err(e) ==> made == Err::<usize, EngineGetError>(EngineGetError::Create(e))
            && next.handles@ == pool.handles@,
{
    if outcome is Ok {
        let entry = PoolEntry {
            level_id: plan.level_id,
            options: plan.options,
            key: plan.key,
            handle: plan.handle,
        };
        law_kept_engine_found(pool.handles@, entry, key);
    }
}

/// A new pool plans the first engine of each known level from what the pool was given:
/// the weights, the threads, and the settings that the engine library starts from.
pub proof fn law_new_pool_plans(
    pool: EnginePool,
    capi: Capi,
    weights: WeightSet,
    threads: i32,
    r: Result<Lookup, LevelError>,
    level_id: Seq<char>,
)
    requires
        weights.wf(),
        starts_from(pool, capi, weights, threads),
        level_named(level_id) is Some,
        looked_up(r, pool, level_id, None),
    ensures
        r matches Ok(Lookup::Build(plan)) && {
            &&& plan.config.threads == threads
            &&& plan.config.strategy_type@ == weights.strategy_type@
            &&& plan.config.rollout.seed == capi.rollout_config_defaults.seed
            &&& plan.config.rollout.enable_vr == capi.rollout_config_defaults.enable_vr
            &&& plan.options is None
            &&& plan.level_id@ == level_id
        },
{
    lemma_key_absent(pool.handles@, key_text(level_id, None));
}

/// A number of threads that was asked for is logged as the number that it is, and none
/// as something that is no number.
pub proof fn law_threads_logged(threads: int)
    requires
        i32::MIN <= threads <= i32::MAX,
    ensures
        threads != 0 ==> integer_of(threads_text(threads)) == Some(threads),
        threads == 0 ==> integer_of(threads_text(threads)) is None,
{
    law_integer_reads_back(threads);
    reveal_strlit("auto");
    assert("auto"@[0] == 'a');
    assert(!is_digit("auto"@[0]));
}

} // verus!

//! The weight files of the model and the bearoff database, checked at startup.
use vstd::prelude::*;

use crate::text::{chars_of, find_char, holds_text, join_strings};
#[allow(unused_imports)]
use crate::text::{joined, lemma_span_len, strings};

verus! {

/// The strategy that the engine library plays the model with.
pub const STRATEGY_BACKGAME_PAIR: &'static str = "backgame_pair";

pub const BEAROFF_DB_FILENAME: &'static str = "bearoff_1sided.db";

/// The weight file of each slot. The slots 11, 12, 15 and 16 share one file.
pub const STAGE9_PLAN_FILES: [&'static str; 19] = [
    "sl_s9_purerace.weights.best",
    "sl_s9_race_race.weights.best",
    "sl_s9_race_att.weights.best",
    "sl_s9_race_prim.weights.best",
    "sl_s9_race_anch.weights.best",
    "sl_s9_att_race.weights.best",
    "sl_s9_att_att.weights.best",
    "sl_s9_att_prim.weights.best",
    "sl_s9_att_anch.weights.best",
    "sl_s9_prim_race.weights.best",
    "sl_s9_prim_att.weights.best",
    "sl_s9_prim_anch.weights.best",
    "sl_s9_prim_anch.weights.best",
    "sl_s9_anch_race.weights.best",
    "sl_s9_anch_att.weights.best",
    "sl_s9_prim_anch.weights.best",
    "sl_s9_prim_anch.weights.best",
    "sl_s9_player_bg.weights.best",
    "sl_s9_opponent_bg.weights.best",
];

/// The hidden nodes of the pure race network.
pub const STAGE9_HIDDEN_PURERACE: i32 = 100;

/// The hidden nodes of every other network.
pub const STAGE9_HIDDEN_CONTACT: i32 = 400;

/// A path, and whether a file was found there.
#[derive(Debug)]
pub struct Probe {
    pub path: String,
    pub is_file: bool,
}

/// The weight files and the bearoff database of an engine.
#[derive(Debug)]
pub struct WeightSet {
    pub strategy_type: String,
    pub paths: Vec<String>,
    pub hidden_sizes: Vec<i32>,
    pub bearoff: Option<String>,
}

impl WeightSet {
    /// One path and one size for each slot.
    pub open spec fn wf(&self) -> bool {
        &&& self.paths@.len() == 19
        &&& self.hidden_sizes@.len() == 19
    }
}

/// Each slot holds the path that was looked for in its place.
pub open spec fn holds_paths(set: WeightSet, probes: Seq<Probe>) -> bool {
    forall|i: int| 0 <= i < 19 ==> (#[trigger] set.paths@[i])@ == probes[i].path@
}

/// The weight set is the one of the stage 9 model, with its files as they were found.
pub open spec fn makes_up(set: WeightSet, probes: Seq<Probe>, bearoff: Option<Probe>) -> bool {
    &&& set.wf()
    &&& set.strategy_type@ == STRATEGY_BACKGAME_PAIR@
    &&& holds_paths(set, probes)
    &&& forall|i: int|
        0 <= i < 19 ==> #[trigger] set.hidden_sizes@[i] == (if i == 0 {
            100i32
        } else {
            400i32
        })
    &&& match bearoff {
        Some(db) => set.bearoff matches Some(path) && path@ == db.path@,
        None => set.bearoff is None,
    }
}

/// The files of the model were looked for in slot order, under the given text.
pub open spec fn looked_under(probes: Seq<Probe>, dir: Seq<char>) -> bool {
    &&& probes.len() == 19
    &&& forall|i: int| 0 <= i < 19 ==> (#[trigger] probes[i]).path@ == dir + STAGE9_PLAN_FILES@[i]@
}

/// A zero character, which no C string can hold.
pub open spec fn has_nul(s: Seq<char>) -> bool {
    s.contains('\0')
}

/// What is said of a path with a zero character in it.
pub open spec fn nul_text(path: Seq<char>) -> Seq<char> {
    "path contains a NUL byte: "@ + path
}

/// The first of some paths with a zero character in it.
pub open spec fn first_nul(probes: Seq<Probe>) -> Option<Seq<char>>
    decreases probes.len(),
{
    if probes.len() == 0 {
        None
    } else {
        match first_nul(probes.drop_last()) {
            Some(path) => Some(path),
            None => if has_nul(probes.last().path@) {
                Some(probes.last().path@)
            } else {
                None
            },
        }
    }
}

/// The paths with no file, each once, in order.
pub open spec fn missing_paths(probes: Seq<Probe>) -> Seq<Seq<char>>
    decreases probes.len(),
{
    if probes.len() == 0 {
        Seq::empty()
    } else {
        let before = missing_paths(probes.drop_last());
        let path = probes.last().path@;
        if probes.last().is_file || before.contains(path) {
            before
        } else {
            before.push(path)
        }
    }
}

/// What is wrong with the files that were looked for, if anything is: a path
/// that cannot be handed on comes first, then missing weight files, then the
/// bearoff database.
pub open spec fn files_fault(dir: Seq<char>, probes: Seq<Probe>, bearoff: Option<Probe>) -> Option<
    Seq<char>,
> {
    match first_nul(probes) {
        Some(path) => Some(nul_text(path)),
        None => if missing_paths(probes).len() > 0 {
            Some("missing weight files in "@ + dir + ": "@ + joined(missing_paths(probes), ", "@))
        } else {
            match bearoff {
                None => None,
                Some(db) => if !db.is_file {
                    Some("bearoff database not found: "@ + db.path@)
                } else if has_nul(db.path@) {
                    Some(nul_text(db.path@))
                } else {
                    None
                },
            }
        },
    }
}

/// Hands a path on as it stands, unless it holds a zero character.
pub fn path_cstring(path: &str) -> (r: Result<String, String>)
    ensures
        match r {
            Ok(s) => !has_nul(path@) && s@ == path@,
            Err(message) => has_nul(path@) && message@ == nul_text(path@),
        },
{
    let cs = chars_of(path);
    let at = find_char(&cs, '\0', 0);
    proof {
        assert(cs@.skip(0) == cs@);
        lemma_span_len(cs@, '\0');
    }
    if at < cs.len() {
        assert(cs@[at as int] == '\0');
        let mut r = String::from_str("path contains a NUL byte: ");
        r.append(path);
        Err(r)
    } else {
        Ok(path.to_owned())
    }
}

proof fn lemma_first_nul(probes: Seq<Probe>, k: int)
    requires
        0 <= k <= probes.len(),
        first_nul(probes.take(k)) is Some,
    ensures
        first_nul(probes) == first_nul(probes.take(k)),
    decreases probes.len(),
{
    if k == probes.len() {
        assert(probes.take(k) == probes);
    } else {
        assert(probes.drop_last().take(k) == probes.take(k));
        lemma_first_nul(probes.drop_last(), k);
    }
}

impl WeightSet {
    /// The weight set of the stage 9 model, from where its files were looked for:
    /// a path for each slot, in slot order, and the bearoff database if one is to
    /// be used.
    pub fn stage9(weights_dir: &str, probes: &Vec<Probe>, bearoff_db: Option<&Probe>) -> (r: Result<
        WeightSet,
        String,
    >)
        requires
            probes@.len() == 19,
        ensures
            match files_fault(
                weights_dir@,
                probes@,
                match bearoff_db {
                    Some(db) => Some(*db),
                    None => None,
                },
            ) {
                Some(message) => r matches Err(m) && m@ == message,
                None => r matches Ok(set) && makes_up(
                    set,
                    probes@,
                    match bearoff_db {
                        Some(db) => Some(*db),
                        None => None,
                    },
                ),
            },
    {
        let mut paths: Vec<String> = Vec::new();
        let mut hidden_sizes: Vec<i32> = Vec::new();
        let mut missing: Vec<String> = Vec::new();
        let mut slot: usize = 0;
        while slot < probes.len()
            invariant
                slot <= probes.len(),
                probes@.len() == 19,
                paths@.len() == slot,
                hidden_sizes@.len() == slot,
                first_nul(probes@.take(slot as int)) is None,
                strings(missing@) == missing_paths(probes@.take(slot as int)),
                forall|i: int| 0 <= i < slot ==> (#[trigger] paths@[i])@ == probes@[i].path@,
                forall|i: int|
                    0 <= i < slot ==> #[trigger] hidden_sizes@[i] == (if i == 0 {
                        100i32
                    } else {
                        400i32
                    }),
            decreases probes.len() - slot,
        {
            proof {
                let next = probes@.take(slot + 1);
                assert(next.drop_last() == probes@.take(slot as int));
                assert(next.last() == probes@[slot as int]);
            }
            let path = probes[slot].path.as_str();
            if !probes[slot].is_file && !holds_text(&missing, path) {
                let ghost before = missing@;
                missing.push(path.to_owned());
                assert(strings(missing@) == strings(before).push(path@));
            }
            match path_cstring(path) {
                Ok(text) => {
                    paths.push(text);
                },
                Err(message) => {
                    proof {
                        lemma_first_nul(probes@, slot + 1);
                    }
                    return Err(message);
                },
            }
            hidden_sizes.push(
                if slot == 0 {
                    STAGE9_HIDDEN_PURERACE
                } else {
                    STAGE9_HIDDEN_CONTACT
                },
            );
            slot = slot + 1;
        }
        assert(probes@.take(slot as int) == probes@);
        if missing.len() > 0 {
            let mut r = String::from_str("missing weight files in ");
            r.append(weights_dir);
            r.append(": ");
            r.append(join_strings(&missing, ", ").as_str());
            return Err(r);
        }
        let bearoff: Option<String> = match bearoff_db {
            Some(db) => {
                if !db.is_file {
                    let mut r = String::from_str("bearoff database not found: ");
                    r.append(db.path.as_str());
                    return Err(r);
                }
                match path_cstring(db.path.as_str()) {
                    Ok(text) => Some(text),
                    Err(message) => {
                        return Err(message);
                    },
                }
            },
            None => None,
        };
        Ok(
            WeightSet {
                strategy_type: STRATEGY_BACKGAME_PAIR.to_owned(),
                paths,
                hidden_sizes,
                bearoff,
            },
        )
    }
}

/// Where the files of the model were looked for under one directory, each slot holds
/// its own file there, and the slots 11, 12, 15 and 16 hold the same one.
pub proof fn law_slots_hold_their_files(set: WeightSet, probes: Seq<Probe>, dir: Seq<char>)
    requires
        looked_under(probes, dir),
        holds_paths(set, probes),
    ensures
        forall|i: int| 0 <= i < 19 ==> (#[trigger] set.paths@[i])@ == dir + STAGE9_PLAN_FILES@[i]@,
        set.paths@[12]@ == set.paths@[11]@,
        set.paths@[15]@ == set.paths@[11]@,
        set.paths@[16]@ == set.paths@[11]@,
{
    assert(STAGE9_PLAN_FILES@[12] == STAGE9_PLAN_FILES@[11]);
    assert(STAGE9_PLAN_FILES@[15] == STAGE9_PLAN_FILES@[11]);
    assert(STAGE9_PLAN_FILES@[16] == STAGE9_PLAN_FILES@[11]);
    assert forall|i: int| 0 <= i < 19 implies (#[trigger] set.paths@[i])@ == dir
        + STAGE9_PLAN_FILES@[i]@ by {
        assert(probes[i].path@ == dir + STAGE9_PLAN_FILES@[i]@);
    }
}

/// Nothing is missing exactly if there is a file at every path; what is missing
/// is named once and has no file.
pub proof fn law_missing_files(probes: Seq<Probe>)
    ensures
        missing_paths(probes).len() == 0 <==> forall|i: int|
            0 <= i < probes.len() ==> (#[trigger] probes[i]).is_file,
        missing_paths(probes).no_duplicates(),
        forall|path: Seq<char>| #[trigger]
            missing_paths(probes).contains(path) <==> exists|i: int|
                0 <= i < probes.len() && !(#[trigger] probes[i]).is_file && probes[i].path@ == path,
    decreases probes.len(),
{
    if probes.len() > 0 {
        let rest = probes.drop_last();
        let last = probes.last();
        let before = missing_paths(rest);
        let all = missing_paths(probes);
        law_missing_files(rest);
        assert(probes[probes.len() - 1] == last);
        assert(forall|i: int| 0 <= i < rest.len() ==> #[trigger] rest[i] == probes[i]);
        if all == before {
            if !last.is_file {
                assert(before.contains(last.path@));
            }
        } else {
            assert(all[all.len() - 1] == last.path@);
        }
        assert forall|path: Seq<char>| #[trigger] all.contains(path) <==> exists|i: int|
            0 <= i < probes.len() && !(#[trigger] probes[i]).is_file && probes[i].path@ == path by {
            if all.contains(path) {
                if before.contains(path) {
                    let i = choose|i: int|
                        0 <= i < rest.len() && !(#[trigger] rest[i]).is_file && rest[i].path@ == path;
                    assert(probes[i] == rest[i]);
                }
            }
            if exists|i: int|
                0 <= i < probes.len() && !(#[trigger] probes[i]).is_file && probes[i].path@ == path {
                let i = choose|i: int|
                    0 <= i < probes.len() && !(#[trigger] probes[i]).is_file && probes[i].path@ == path;
                if i < rest.len() {
                    assert(rest[i] == probes[i]);
                    assert(before.contains(path));
                    let k = choose|k: int| 0 <= k < before.len() && before[k] == path;
                    assert(all[k] == path);
                }
            }
        }
        if all.len() == 0 {
            assert forall|i: int| 0 <= i < probes.len() implies (#[trigger] probes[i]).is_file by {
                if i < rest.len() {
                    assert(rest[i].is_file);
                } else if !last.is_file {
                    assert(before.len() == 0);
                }
            }
        } else {
            assert(all.contains(all[0]));
        }
    }
}

proof fn lemma_first_nul_is(probes: Seq<Probe>)
    ensures
        first_nul(probes) is Some <==> exists|i: int|
            0 <= i < probes.len() && (#[trigger] probes[i]).path@.contains('\0'),
        first_nul(probes) matches Some(path) ==> exists|i: int|
            0 <= i < probes.len() && (#[trigger] probes[i]).path@ == path && path.contains('\0') && forall|
                k: int,
            |
                0 <= k < i ==> !(#[trigger] probes[k]).path@.contains('\0'),
    decreases probes.len(),
{
    if probes.len() > 0 {
        let rest = probes.drop_last();
        let last = probes.last();
        lemma_first_nul_is(rest);
        assert(probes[probes.len() - 1] == last);
        assert(forall|i: int| 0 <= i < rest.len() ==> #[trigger] rest[i] == probes[i]);
        if first_nul(rest) is Some {
            let path = first_nul(rest)->0;
            let i = choose|i: int|
                0 <= i < rest.len() && (#[trigger] rest[i]).path@ == path && path.contains('\0') && forall|
                    k: int,
                |
                    0 <= k < i ==> !(#[trigger] rest[k]).path@.contains('\0');
            assert(probes[i].path@ == path);
            assert forall|k: int| 0 <= k < i implies !(#[trigger] probes[k]).path@.contains('\0') by {
                assert(rest[k] == probes[k]);
            }
        } else {
            assert forall|k: int| 0 <= k < rest.len() implies !(#[trigger] probes[k]).path@.contains(
                '\0',
            ) by {
                assert(rest[k] == probes[k]);
            }
        }
    }
}

/// The files are accepted exactly if there is one at every path, no path holds a zero
/// character, and the bearoff database, where one is to be used, is there under a path
/// of that kind too.
pub proof fn law_files_accepted(dir: Seq<char>, probes: Seq<Probe>, bearoff: Option<Probe>)
    ensures
        files_fault(dir, probes, bearoff) is None <==> {
            &&& forall|i: int|
                0 <= i < probes.len() ==> (#[trigger] probes[i]).is_file && !probes[i].path@.contains('\0')
            &&& bearoff matches Some(db) ==> db.is_file && !db.path@.contains('\0')
        },
{
    law_missing_files(probes);
    lemma_first_nul_is(probes);
}

/// A weight set that was made up holds, slot by slot, the path that was looked for, a
/// network of 100 hidden nodes for the pure race in the first slot and of 400 in every
/// other, and the bearoff database exactly if one was to be used.
pub proof fn law_set_made_up(set: WeightSet, probes: Seq<Probe>, bearoff: Option<Probe>)
    requires
        probes.len() == 19,
        makes_up(set, probes, bearoff),
    ensures
        set.paths@.len() == probes.len(),
        set.hidden_sizes@.len() == probes.len(),
        forall|i: int| 0 <= i < probes.len() ==> (#[trigger] set.paths@[i])@ == probes[i].path@,
        set.hidden_sizes@[0] == 100,
        forall|i: int| 1 <= i < probes.len() ==> #[trigger] set.hidden_sizes@[i] == 400,
        set.bearoff is Some <==> bearoff is Some,
        bearoff matches Some(db) ==> set.bearoff->0@ == db.path@,
        set.strategy_type@ == "backgame_pair"@,
{
}

/// What is told where several things are wrong with the files: a path that holds a zero
/// character, the first of them in slot order, whatever is missing; else the missing
/// weight files, whatever the bearoff database; the database last.
pub proof fn law_first_file_fault(
    dir: Seq<char>,
    other_dir: Seq<char>,
    probes: Seq<Probe>,
    one: Option<Probe>,
    other: Option<Probe>,
)
    ensures
        (exists|i: int| 0 <= i < probes.len() && (#[trigger] probes[i]).path@.contains('\0')) ==> (
        files_fault(dir, probes, one) is Some && files_fault(dir, probes, one) == files_fault(
            other_dir,
            probes,
            other,
        ) && exists|i: int|
            0 <= i < probes.len() && files_fault(dir, probes, one) == Some(
                nul_text((#[trigger] probes[i]).path@),
            ) && forall|k: int| 0 <= k < i ==> !(#[trigger] probes[k]).path@.contains('\0')),
        !(exists|i: int| 0 <= i < probes.len() && (#[trigger] probes[i]).path@.contains('\0')) && (exists|
            i: int,
        |
            0 <= i < probes.len() && !(#[trigger] probes[i]).is_file) ==> files_fault(dir, probes, one) is Some
            && files_fault(dir, probes, one) == files_fault(dir, probes, other),
{
    law_missing_files(probes);
    lemma_first_nul_is(probes);
}

// The names of the files

/// The plans that a side may follow, in slot order.
pub open spec fn plan_name(k: int) -> Seq<char> {
    if k == 0 {
        "race"@
    } else if k == 1 {
        "att"@
    } else if k == 2 {
        "prim"@
    } else {
        "anch"@
    }
}

/// The file of a network for the two plans of a position.
pub open spec fn plans_file(mine: int, theirs: int) -> Seq<char> {
    "sl_s9_"@ + plan_name(mine) + "_"@ + plan_name(theirs) + ".weights.best"@
}

proof fn lemma_file_names()
    ensures
        plans_file(0, 0) == "sl_s9_race_race.weights.best"@,
        plans_file(0, 1) == "sl_s9_race_att.weights.best"@,
        plans_file(0, 2) == "sl_s9_race_prim.weights.best"@,
        plans_file(0, 3) == "sl_s9_race_anch.weights.best"@,
        plans_file(1, 0) == "sl_s9_att_race.weights.best"@,
        plans_file(1, 1) == "sl_s9_att_att.weights.best"@,
        plans_file(1, 2) == "sl_s9_att_prim.weights.best"@,
        plans_file(1, 3) == "sl_s9_att_anch.weights.best"@,
        plans_file(2, 0) == "sl_s9_prim_race.weights.best"@,
        plans_file(2, 1) == "sl_s9_prim_att.weights.best"@,
        plans_file(2, 3) == "sl_s9_prim_anch.weights.best"@,
        plans_file(3, 0) == "sl_s9_anch_race.weights.best"@,
        plans_file(3, 1) == "sl_s9_anch_att.weights.best"@,
{
    reveal_strlit("race");
    reveal_strlit("att");
    reveal_strlit("prim");
    reveal_strlit("anch");
    reveal_strlit("sl_s9_");
    reveal_strlit("_");
    reveal_strlit(".weights.best");
    reveal_strlit("sl_s9_race_race.weights.best");
    reveal_strlit("sl_s9_race_att.weights.best");
    reveal_strlit("sl_s9_race_prim.weights.best");
    reveal_strlit("sl_s9_race_anch.weights.best");
    reveal_strlit("sl_s9_att_race.weights.best");
    reveal_strlit("sl_s9_att_att.weights.best");
    reveal_strlit("sl_s9_att_prim.weights.best");
    reveal_strlit("sl_s9_att_anch.weights.best");
    reveal_strlit("sl_s9_prim_race.weights.best");
    reveal_strlit("sl_s9_prim_att.weights.best");
    reveal_strlit("sl_s9_prim_anch.weights.best");
    reveal_strlit("sl_s9_anch_race.weights.best");
    reveal_strlit("sl_s9_anch_att.weights.best");
    assert(plans_file(0, 0) =~= "sl_s9_race_race.weights.best"@);
    assert(plans_file(0, 1) =~= "sl_s9_race_att.weights.best"@);
    assert(plans_file(0, 2) =~= "sl_s9_race_prim.weights.best"@);
    assert(plans_file(0, 3) =~= "sl_s9_race_anch.weights.best"@);
    assert(plans_file(1, 0) =~= "sl_s9_att_race.weights.best"@);
    assert(plans_file(1, 1) =~= "sl_s9_att_att.weights.best"@);
    assert(plans_file(1, 2) =~= "sl_s9_att_prim.weights.best"@);
    assert(plans_file(1, 3) =~= "sl_s9_att_anch.weights.best"@);
    assert(plans_file(2, 0) =~= "sl_s9_prim_race.weights.best"@);
    assert(plans_file(2, 1) =~= "sl_s9_prim_att.weights.best"@);
    assert(plans_file(2, 3) =~= "sl_s9_prim_anch.weights.best"@);
    assert(plans_file(3, 0) =~= "sl_s9_anch_race.weights.best"@);
    assert(plans_file(3, 1) =~= "sl_s9_anch_att.weights.best"@);
}

/// The slots behind the first go through the plans of the mover and, for each, those of
/// the opponent, each slot with the file of its two plans, but that two sides which prime
/// or anchor share the one of a prime against an anchor.
pub proof fn law_slots_by_plans(mine: int, theirs: int)
    requires
        0 <= mine < 4,
        0 <= theirs < 4,
    ensures
        ({
            let file = STAGE9_PLAN_FILES@[1 + 4 * mine + theirs]@;
            &&& mine >= 2 && theirs >= 2 ==> file == plans_file(2, 3)
            &&& !(mine >= 2 && theirs >= 2) ==> file == plans_file(mine, theirs)
        }),
{
    lemma_file_names();
}

} // verus!

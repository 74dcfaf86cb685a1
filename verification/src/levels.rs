//! The names of the levels that the engine answers at.
use vstd::prelude::*;

#[allow(unused_imports)]
use crate::text::decimal;
use crate::text::same_text;

verus! {

pub const PLY_1: &'static str = "1ply";

pub const PLY_2: &'static str = "2ply";

pub const PLY_3: &'static str = "3ply";

pub const PLY_4: &'static str = "4ply";

pub const ROLLER_2T: &'static str = "2T";

pub const ROLLER_3T: &'static str = "3T";

pub const ROLLOUT: &'static str = "rollout";

/// A level that the engine knows.
#[derive(Clone, Copy, Debug, PartialEq, Eq, Structural)]
pub enum KnownLevel {
    /// A search to a fixed number of plies.
    Ply(u32),
    /// The truncated rollout with two-ply decisions.
    Roller2T,
    /// The truncated rollout with three-ply decisions.
    Roller3T,
    /// The full rollout, whose settings a request may change.
    Rollout,
}

/// The level that a name stands for.
pub open spec fn level_named(id: Seq<char>) -> Option<KnownLevel> {
    if id == PLY_1@ {
        Some(KnownLevel::Ply(1))
    } else if id == PLY_2@ {
        Some(KnownLevel::Ply(2))
    } else if id == PLY_3@ {
        Some(KnownLevel::Ply(3))
    } else if id == PLY_4@ {
        Some(KnownLevel::Ply(4))
    } else if id == ROLLER_2T@ {
        Some(KnownLevel::Roller2T)
    } else if id == ROLLER_3T@ {
        Some(KnownLevel::Roller3T)
    } else if id == ROLLOUT@ {
        Some(KnownLevel::Rollout)
    } else {
        None
    }
}

/// The level names in the order in which they are advertised.
pub open spec fn level_names() -> Seq<Seq<char>> {
    seq![PLY_1@, PLY_2@, PLY_3@, PLY_4@, ROLLER_2T@, ROLLER_3T@, ROLLOUT@]
}

/// Finds the level that a name stands for.
pub fn find_level(id: &str) -> (r: Option<KnownLevel>)
    ensures
        r == level_named(id@),
{
    if same_text(id, PLY_1) {
        Some(KnownLevel::Ply(1))
    } else if same_text(id, PLY_2) {
        Some(KnownLevel::Ply(2))
    } else if same_text(id, PLY_3) {
        Some(KnownLevel::Ply(3))
    } else if same_text(id, PLY_4) {
        Some(KnownLevel::Ply(4))
    } else if same_text(id, ROLLER_2T) {
        Some(KnownLevel::Roller2T)
    } else if same_text(id, ROLLER_3T) {
        Some(KnownLevel::Roller3T)
    } else if same_text(id, ROLLOUT) {
        Some(KnownLevel::Rollout)
    } else {
        None
    }
}

/// The names are distinct: each stands for a level of its own.
pub proof fn lemma_names()
    ensures
        level_named(PLY_1@) == Some(KnownLevel::Ply(1)),
        level_named(PLY_2@) == Some(KnownLevel::Ply(2)),
        level_named(PLY_3@) == Some(KnownLevel::Ply(3)),
        level_named(PLY_4@) == Some(KnownLevel::Ply(4)),
        level_named(ROLLER_2T@) == Some(KnownLevel::Roller2T),
        level_named(ROLLER_3T@) == Some(KnownLevel::Roller3T),
        level_named(ROLLOUT@) == Some(KnownLevel::Rollout),
{
    reveal_strlit("1ply");
    reveal_strlit("2ply");
    reveal_strlit("3ply");
    reveal_strlit("4ply");
    reveal_strlit("2T");
    reveal_strlit("3T");
    reveal_strlit("rollout");
    assert(PLY_1@[0] == '1' && PLY_2@[0] == '2' && PLY_3@[0] == '3' && PLY_4@[0] == '4');
    assert(PLY_1@.len() == 4 && PLY_2@.len() == 4 && PLY_3@.len() == 4 && PLY_4@.len() == 4);
    assert(ROLLER_2T@.len() == 2 && ROLLER_3T@.len() == 2);
    assert(ROLLER_2T@[0] == '2' && ROLLER_3T@[0] == '3');
    assert(ROLLOUT@.len() == 7);
}

/// A ply level is named by its depth, from one to four.
pub proof fn law_ply_named(id: Seq<char>, n: u32)
    ensures
        level_named(id) == Some(KnownLevel::Ply(n)) <==> 1 <= n <= 4 && id == decimal(n as nat) + "ply"@,
{
    lemma_ply_texts();
    if 1 <= n <= 4 && id == decimal(n as nat) + "ply"@ {
        lemma_names();
    }
}

/// A roller is named by the depth of its decisions.
pub proof fn law_roller_named(id: Seq<char>)
    ensures
        level_named(id) == Some(KnownLevel::Roller2T) <==> id == decimal(2) + "T"@,
        level_named(id) == Some(KnownLevel::Roller3T) <==> id == decimal(3) + "T"@,
        level_named(id) == Some(KnownLevel::Rollout) <==> id == "rollout"@,
{
    reveal_strlit("2T");
    reveal_strlit("3T");
    reveal_strlit("T");
    lemma_names();
    assert(decimal(2) + "T"@ =~= ROLLER_2T@);
    assert(decimal(3) + "T"@ =~= ROLLER_3T@);
}

proof fn lemma_ply_texts()
    ensures
        decimal(1) + "ply"@ == PLY_1@,
        decimal(2) + "ply"@ == PLY_2@,
        decimal(3) + "ply"@ == PLY_3@,
        decimal(4) + "ply"@ == PLY_4@,
{
    reveal_strlit("1ply");
    reveal_strlit("2ply");
    reveal_strlit("3ply");
    reveal_strlit("4ply");
    reveal_strlit("ply");
    assert(decimal(1) + "ply"@ =~= PLY_1@);
    assert(decimal(2) + "ply"@ =~= PLY_2@);
    assert(decimal(3) + "ply"@ =~= PLY_3@);
    assert(decimal(4) + "ply"@ =~= PLY_4@);
}

} // verus!

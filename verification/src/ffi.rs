//! The engine library's configuration records, return codes and errors, as plain
//! values.
use vstd::prelude::*;

#[allow(unused_imports)]
use crate::text::signed_decimal;
use crate::text::push_signed;

verus! {

/// The number of entries of a board.
pub const BOARD_SIZE: usize = 26;

pub const BGSAGE_OK: i32 = 0;

pub const BGSAGE_E_LOAD_FAILED: i32 = 2;

pub const BGSAGE_E_CANCELLED: i32 = 4;

pub const KIND_PLY: i32 = 1;

pub const KIND_ROLLOUT: i32 = 2;

pub const OWNER_CENTERED: i32 = 0;

pub const OWNER_MOVER: i32 = 1;

pub const OWNER_OPPONENT: i32 = 2;

/// The size of the buffer that the engine library writes a message to.
pub const ERR_BUFFER_LEN: usize = 512;

/// How one decision inside a trial is evaluated. All zeros: unset, inherited.
#[derive(Clone, Copy, Debug, PartialEq, Eq, Structural)]
pub struct TrialEval {
    pub ply: i32,
    pub rollout_trials: i32,
    pub rollout_depth: i32,
    pub rollout_ply: i32,
}

impl Default for TrialEval {
    fn default() -> (r: TrialEval)
        ensures
            r == (TrialEval { ply: 0, rollout_trials: 0, rollout_depth: 0, rollout_ply: 0 }),
    {
        TrialEval { ply: 0, rollout_trials: 0, rollout_depth: 0, rollout_ply: 0 }
    }
}

/// The settings of a rollout, except for the target error and the prefilter
/// threshold: those two are fractions that nothing here reads, and stay as the
/// engine library sets them.
#[derive(Clone, Copy, Debug, PartialEq, Eq, Structural)]
pub struct RolloutConfig {
    pub n_trials: i32,
    pub truncation_depth: i32,
    pub decision_ply: i32,
    pub truncation_ply: i32,
    pub late_ply: i32,
    pub late_threshold: i32,
    pub ultra_late_threshold: i32,
    pub enable_vr: i32,
    pub cubeful_trial_moves: i32,
    pub cubeful_late_threshold: i32,
    pub seed: u32,
    pub max_batches: i32,
    pub checker: TrialEval,
    pub checker_late: TrialEval,
    pub cube: TrialEval,
    pub cube_late: TrialEval,
}

/// What an engine is created from. The filter threshold, a fraction, is always
/// zero, which leaves it to the engine library.
#[derive(Debug)]
pub struct EngineConfig {
    pub strategy_type: String,
    pub weight_paths: Vec<String>,
    pub hidden_sizes: Vec<i32>,
    pub n_weights: i32,
    pub bearoff_db_path: Option<String>,
    pub kind: i32,
    pub n_plies: i32,
    pub rollout: RolloutConfig,
    pub filter_max_moves: i32,
    pub threads: i32,
}

/// The cube and the score, as one evaluation call takes them.
#[derive(Clone, Copy, Debug, PartialEq, Eq, Structural)]
pub struct CubeCtx {
    pub cube_value: i32,
    pub owner: i32,
    pub away1: i32,
    pub away2: i32,
    pub is_crawford: i32,
    pub jacoby: i32,
    pub beaver: i32,
}

/// What the loaded engine library says of itself: its version and the rollout
/// settings that it starts from.
#[derive(Debug)]
pub struct Capi {
    pub version: String,
    pub rollout_config_defaults: RolloutConfig,
}

/// A call into the engine library failed.
#[derive(Clone, Debug)]
pub struct CapiError {
    pub code: i32,
    pub message: String,
}

/// An error of the engine library as one line.
pub open spec fn capi_error_text(code: int, message: Seq<char>) -> Seq<char> {
    "bgsage_capi error "@ + signed_decimal(code) + ": "@ + message
}

impl CapiError {
    /// Whether the call ended because it was cancelled.
    pub fn is_cancelled(&self) -> (r: bool)
        ensures
            r == (self.code == 4),
    {
        self.code == BGSAGE_E_CANCELLED
    }

    /// The error as one line.
    pub fn to_string(&self) -> (r: String)
        ensures
            r@ == capi_error_text(self.code as int, self.message@),
    {
        let mut r = String::from_str("bgsage_capi error ");
        push_signed(&mut r, self.code as i64);
        r.append(": ");
        r.append(self.message.as_str());
        r
    }
}

/// What `String::from_utf8_lossy` makes of some bytes: their text, with a
/// replacement character where they are not UTF-8.
pub uninterp spec fn lossy_text(bytes: Seq<u8>) -> Seq<char>;

/// `String::from_utf8_lossy`. Nothing is claimed of the text beyond its being a
/// function of the bytes.
#[verifier::external_body]
fn lossy(bytes: &[u8]) -> (r: String)
    ensures
        r@ == lossy_text(bytes@),
{
    String::from_utf8_lossy(bytes).into_owned()
}

/// How many bytes stand before the first zero.
pub open spec fn c_len(bytes: Seq<u8>) -> nat
    decreases bytes.len(),
{
    if bytes.len() == 0 || bytes[0] == 0 {
        0
    } else {
        1 + c_len(bytes.drop_first())
    }
}

proof fn lemma_c_len_is(bytes: Seq<u8>, n: int)
    requires
        0 <= n < bytes.len(),
        forall|i: int| 0 <= i < n ==> #[trigger] bytes[i] != 0,
        bytes[n] == 0,
    ensures
        c_len(bytes) == n,
    decreases n,
{
    if n > 0 {
        let rest = bytes.drop_first();
        assert forall|i: int| 0 <= i < n - 1 implies #[trigger] rest[i] != 0 by {
            assert(rest[i] == bytes[i + 1]);
        }
        lemma_c_len_is(rest, n - 1);
    }
}

/// The bytes before the first zero of a buffer that holds one.
fn before_zero(buffer: &[u8]) -> (r: Vec<u8>)
    requires
        exists|i: int| 0 <= i < buffer@.len() && #[trigger] buffer@[i] == 0,
    ensures
        r@ == buffer@.take(c_len(buffer@) as int),
{
    let mut r: Vec<u8> = Vec::new();
    let mut i: usize = 0;
    while i < buffer.len() && buffer[i] != 0
        invariant
            i <= buffer@.len(),
            r@ == buffer@.take(i as int),
            forall|k: int| 0 <= k < i ==> #[trigger] buffer@[k] != 0,
        decreases buffer@.len() - i,
    {
        r.push(buffer[i]);
        i = i + 1;
    }
    proof {
        let z = choose|z: int| 0 <= z < buffer@.len() && #[trigger] buffer@[z] == 0;
        assert(i <= z);
        lemma_c_len_is(buffer@, i as int);
    }
    r
}

/// The error that a call left in its message buffer: the text up to the first
/// zero byte.
pub fn error_from(code: i32, buffer: &[u8]) -> (r: CapiError)
    requires
        exists|i: int| 0 <= i < buffer@.len() && #[trigger] buffer@[i] == 0,
    ensures
        r.code == code,
        r.message@ == message_of(buffer@),
{
    let bytes = before_zero(buffer);
    CapiError { code, message: lossy(bytes.as_slice()) }
}

/// The text that a call left in its message buffer, up to the first zero byte.
pub open spec fn message_of(buffer: Seq<u8>) -> Seq<char> {
    lossy_text(buffer.take(c_len(buffer) as int))
}

/// What a call gives back: what it wrote, unless its code is not zero.
pub open spec fn call_gives<T>(r: Result<T, CapiError>, code: i32, out: T, buffer: Seq<u8>) -> bool {
    if code == 0 {
        r == Ok::<T, CapiError>(out)
    } else {
        r matches Err(e) && e.code == code && e.message@ == message_of(buffer)
    }
}

/// What a call gives back: what it wrote, unless its code is not `BGSAGE_OK`.
pub fn call_result<T>(code: i32, out: T, buffer: &[u8]) -> (r: Result<T, CapiError>)
    requires
        exists|i: int| 0 <= i < buffer@.len() && #[trigger] buffer@[i] == 0,
    ensures
        call_gives(r, code, out, buffer@),
{
    if code == BGSAGE_OK {
        Ok(out)
    } else {
        Err(error_from(code, buffer))
    }
}

/// What creating an engine gives back: the engine, or that it could not be
/// loaded.
pub open spec fn creation_gives<T>(r: Result<T, CapiError>, engine: Option<T>, buffer: Seq<u8>) -> bool {
    match engine {
        Some(e) => r == Ok::<T, CapiError>(e),
        None => r matches Err(e) && e.code == 2 && e.message@ == message_of(buffer),
    }
}

/// What creating an engine gives back: the engine, or that it could not be
/// loaded.
pub fn creation_result<T>(engine: Option<T>, buffer: &[u8]) -> (r: Result<T, CapiError>)
    requires
        exists|i: int| 0 <= i < buffer@.len() && #[trigger] buffer@[i] == 0,
    ensures
        creation_gives(r, engine, buffer@),
{
    match engine {
        Some(engine) => Ok(engine),
        None => Err(error_from(BGSAGE_E_LOAD_FAILED, buffer)),
    }
}

/// How many moves a call says it wrote; a negative count is none.
pub open spec fn moves_written(n_out: int) -> int {
    if n_out > 0 {
        n_out
    } else {
        0
    }
}

/// How many moves a call says it wrote; a negative count is none.
pub fn move_count(n_out: i32) -> (r: usize)
    ensures
        r == moves_written(n_out as int),
{
    if n_out > 0 {
        n_out as usize
    } else {
        0
    }
}

// What holds of calls

proof fn lemma_c_len(bytes: Seq<u8>)
    ensures
        c_len(bytes) <= bytes.len(),
        forall|i: int| 0 <= i < c_len(bytes) ==> #[trigger] bytes[i] != 0,
        c_len(bytes) < bytes.len() ==> bytes[c_len(bytes) as int] == 0,
    decreases bytes.len(),
{
    if bytes.len() > 0 && bytes[0] != 0 {
        let rest = bytes.drop_first();
        lemma_c_len(rest);
        assert forall|i: int| 0 <= i < c_len(bytes) implies #[trigger] bytes[i] != 0 by {
            if i > 0 {
                assert(bytes[i] == rest[i - 1]);
            }
        }
        if c_len(bytes) < bytes.len() {
            assert(bytes[c_len(bytes) as int] == rest[c_len(rest) as int]);
        }
    }
}

/// What stands in a message buffer behind the first zero byte is not read: the message
/// is that of the bytes before it, whatever follows.
pub proof fn law_message_ends_at_zero(text: Seq<u8>, one: Seq<u8>, other: Seq<u8>)
    requires
        forall|i: int| 0 <= i < text.len() ==> #[trigger] text[i] != 0,
    ensures
        message_of(text + seq![0u8] + one) == lossy_text(text),
        message_of(text + seq![0u8] + one) == message_of(text + seq![0u8] + other),
{
    let a = text + seq![0u8] + one;
    let b = text + seq![0u8] + other;
    let n = text.len() as int;
    assert forall|i: int| 0 <= i < n implies #[trigger] a[i] != 0 by {
        assert(a[i] == text[i]);
    }
    assert forall|i: int| 0 <= i < n implies #[trigger] b[i] != 0 by {
        assert(b[i] == text[i]);
    }
    assert(a[n] == 0 && b[n] == 0);
    lemma_c_len(a);
    lemma_c_len(b);
    lemma_c_len_is(a, n);
    lemma_c_len_is(b, n);
    assert(a.take(n) =~= text);
    assert(b.take(n) =~= text);
}

/// A call succeeds exactly if its code is zero, and then gives what it wrote, whatever
/// stands in the message buffer; else it fails with its own code. An engine that was not
/// created is told by the code of a load that failed, which is no cancel.
pub proof fn law_call_by_code<T>(
    r: Result<T, CapiError>,
    code: i32,
    out: T,
    made: Result<T, CapiError>,
    engine: Option<T>,
    buffer: Seq<u8>,
)
    requires
        call_gives(r, code, out, buffer),
        creation_gives(made, engine, buffer),
    ensures
        r is Ok <==> code == 0,
        r matches Ok(v) ==> v == out,
        r matches Err(e) ==> e.code == code && e.message@ == message_of(buffer),
        made is Ok <==> engine is Some,
        engine matches Some(v) ==> made == Ok::<T, CapiError>(v),
        made matches Err(e) ==> e.code == 2 && e.code != BGSAGE_E_CANCELLED && e.message@ == message_of(
            buffer,
        ),
{
}

/// A count of moves is taken as it is, and one below zero as none.
pub proof fn law_moves_written(n: int)
    ensures
        moves_written(n) >= 0,
        n >= 0 ==> moves_written(n) == n,
        n < 0 ==> moves_written(n) == 0,
{
}

} // verus!

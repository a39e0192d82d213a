//! The control context consulted before every published operation, the
//! input-layer validation, and the capped run history.

use vstd::prelude::*;

use vstd::string::StringSliceAdditionalSpecFns;

use crate::model::{lemma_ramp_strictly_increasing, ramp_seq, strictly_increasing};

verus! {

/// The delay a fresh control context paces runs with, in microseconds.
pub const DEFAULT_DELAY_MICROS: u64 = 3000;

/// The process-wide control knobs, shared by every engine instance: the
/// pause flag and the inter-step delay in microseconds.  Observers write
/// these; the worker only reads them, through [`throttle_decision`].
#[derive(Clone, Copy, PartialEq, Eq, Structural, Debug)]
pub struct ControlContext {
    pub paused: bool,
    pub delay: u64,
}

impl ControlContext {
    /// A fresh context: not paused, default delay.
    pub fn new() -> (ctx: ControlContext)
        ensures
            !ctx.paused,
            ctx.delay == DEFAULT_DELAY_MICROS,
    {
        ControlContext { paused: false, delay: DEFAULT_DELAY_MICROS }
    }
}

/// What the throttle protocol asks of the worker before the next operation
/// is published: block until woken, or pace by sleeping.
#[derive(Clone, Copy, PartialEq, Eq, Structural, Debug)]
pub enum ThrottleAction {
    /// Block the worker until a resume or step signal wakes it.
    Park,
    /// Sleep for the given number of microseconds, then go on.
    Sleep(u64),
}

/// The throttle decision, consulted before every published operation: a
/// paused context parks the worker, otherwise the worker paces itself by
/// the configured delay.  This is the only suspension point in the system.
pub fn throttle_decision(ctx: &ControlContext) -> (a: ThrottleAction)
    ensures
        ctx.paused ==> a == ThrottleAction::Park,
        !ctx.paused ==> a == ThrottleAction::Sleep(ctx.delay),
{
    if ctx.paused {
        ThrottleAction::Park
    } else {
        ThrottleAction::Sleep(ctx.delay)
    }
}

/// A freshly generated buffer: the values `1..=n` in order.
pub fn ascending(n: u32) -> (v: Vec<u32>)
    ensures
        v@.len() == n,
        v@ == ramp_seq(n as nat),
        strictly_increasing(v@),
{
    let mut v: Vec<u32> = Vec::new();
    let mut i: u32 = 0;
    while i < n
        invariant
            i <= n,
            v@.len() == i,
            forall|k: int| 0 <= k < i ==> v@[k] == k + 1,
        decreases n - i,
    {
        v.push(i + 1);
        i += 1;
    }
    proof {
        assert(v@ =~= ramp_seq(n as nat));
        lemma_ramp_strictly_increasing(n as nat);
    }
    v
}

/// Whether every byte is an ASCII decimal digit.
pub open spec fn all_digits(s: Seq<u8>) -> bool {
    forall|k: int| 0 <= k < s.len() ==> 0x30 <= #[trigger] s[k] <= 0x39
}

/// The decimal value of a digit string, most significant first.
pub open spec fn dec_value(s: Seq<u8>) -> int
    decreases s.len(),
{
    if s.len() == 0 {
        0
    } else {
        dec_value(s.drop_last()) * 10 + (s.last() - 0x30)
    }
}

proof fn lemma_dec_value_nonneg(s: Seq<u8>)
    requires
        all_digits(s),
    ensures
        dec_value(s) >= 0,
    decreases s.len(),
{
    if s.len() > 0 {
        assert(all_digits(s.drop_last()));
        lemma_dec_value_nonneg(s.drop_last());
    }
}

proof fn lemma_dec_value_prefix_le(s: Seq<u8>, k: int)
    requires
        all_digits(s),
        0 <= k <= s.len(),
    ensures
        dec_value(s.take(k)) <= dec_value(s),
    decreases s.len() - k,
{
    if k == s.len() {
        assert(s.take(k) =~= s);
    } else {
        lemma_dec_value_prefix_le(s, k + 1);
        assert(s.take(k + 1).drop_last() =~= s.take(k));
        assert(all_digits(s.take(k)));
        lemma_dec_value_nonneg(s.take(k));
        assert(dec_value(s.take(k + 1)) == dec_value(s.take(k)) * 10 + (s[k] - 0x30));
    }
}

/// Validates a requested buffer size as the input layer must: the text is
/// accepted exactly when it is one or more decimal digits whose value is
/// positive and fits the size type; anything else is rejected before it
/// reaches the engine.
pub fn parse_size(text: &str) -> (r: Option<u32>)
    ensures
        r is Some <==> (text.spec_bytes().len() > 0 && all_digits(text.spec_bytes()) && 0
            < dec_value(text.spec_bytes()) <= u32::MAX),
        r is Some ==> r->0 == dec_value(text.spec_bytes()),
{
    let bytes = text.as_bytes();
    let n = bytes.len();
    if n == 0 {
        return None;
    }
    let mut acc: u64 = 0;
    let mut i: usize = 0;
    while i < n
        invariant
            i <= n,
            n == bytes@.len(),
            bytes@ == text.spec_bytes(),
            all_digits(bytes@.take(i as int)),
            acc == dec_value(bytes@.take(i as int)),
            acc <= u32::MAX,
        decreases n - i,
    {
        let b = bytes[i];
        if b < 0x30 || b > 0x39 {
            proof {
                assert(!all_digits(bytes@));
            }
            return None;
        }
        proof {
            assert(bytes@.take(i as int + 1).drop_last() =~= bytes@.take(i as int));
            assert(all_digits(bytes@.take(i as int + 1)));
        }
        acc = acc * 10 + (b - 0x30) as u64;
        i += 1;
        if acc > u32::MAX as u64 {
            proof {
                if all_digits(bytes@) {
                    lemma_dec_value_prefix_le(bytes@, i as int);
                }
            }
            return None;
        }
    }
    proof {
        assert(bytes@.take(n as int) =~= bytes@);
    }
    if acc == 0 {
        None
    } else {
        Some(acc as u32)
    }
}

/// One line of the run history: which algorithm ran, over how many values,
/// at which delay, and how long it took.
#[derive(Clone, Copy, Debug)]
pub struct RunRecord {
    pub name: &'static str,
    pub size: u32,
    pub delay: u64,
    pub elapsed_micros: u64,
}

/// Appends a finished run to the history and drops the oldest entry once
/// more than four are held, so at most the four most recent runs remain.
pub fn push_record(history: &mut Vec<RunRecord>, r: RunRecord)
    ensures
        old(history)@.len() < 4 ==> final(history)@ == old(history)@.push(r),
        old(history)@.len() >= 4 ==> final(history)@ == old(history)@.skip(1).push(r),
        old(history)@.len() <= 4 ==> final(history)@.len() <= 4,
{
    history.push(r);
    if history.len() > 4 {
        history.remove(0);
        proof {
            assert(history@ =~= old(history)@.skip(1).push(r));
        }
    }
}

} // verus!

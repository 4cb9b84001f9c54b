//! Telling single, double and triple clicks apart.
use vstd::prelude::*;
use crate::text::Cursor;

verus! {

/// How many clicks in a row a press counts as.
#[derive(Clone, Copy, Debug, PartialEq, Eq, Structural)]
pub enum ClickKind {
    Single,
    Double,
    Triple,
}

/// The last press: its kind, when it happened (in milliseconds) and where.
#[derive(Clone, Copy, Debug, PartialEq, Eq, Structural)]
pub struct ClickRecord {
    pub kind: ClickKind,
    pub time_ms: u64,
    pub pos: Cursor,
}

/// The time within which a press continues the previous one.
pub const CLICK_TIMING_MS: u64 = 500;

/// The kind that follows `k` in a run of presses: single, double, triple,
/// then single again.
pub open spec fn cycle(k: ClickKind) -> ClickKind {
    match k {
        ClickKind::Single => ClickKind::Double,
        ClickKind::Double => ClickKind::Triple,
        ClickKind::Triple => ClickKind::Single,
    }
}

/// A press at `pos` at time `now` continues the previous press when it comes
/// at the same position less than `CLICK_TIMING_MS` after it.
pub open spec fn continues(last: ClickRecord, now: u64, pos: Cursor) -> bool {
    last.time_ms <= now && now - last.time_ms < CLICK_TIMING_MS && last.pos == pos
}

pub open spec fn click_kind_spec(last: Option<ClickRecord>, now: u64, pos: Cursor) -> ClickKind {
    match last {
        Some(r) => if continues(r, now, pos) {
            cycle(r.kind)
        } else {
            ClickKind::Single
        },
        None => ClickKind::Single,
    }
}

/// The kind of a press at `pos` at time `now`, given the previous press.
pub fn next_click_kind(last: Option<ClickRecord>, now: u64, pos: Cursor) -> (r: ClickKind)
    ensures
        r == click_kind_spec(last, now, pos),
{
    match last {
        Some(rec) => {
            if rec.time_ms <= now && now - rec.time_ms < CLICK_TIMING_MS && rec.pos == pos {
                match rec.kind {
                    ClickKind::Single => ClickKind::Double,
                    ClickKind::Double => ClickKind::Triple,
                    ClickKind::Triple => ClickKind::Single,
                }
            } else {
                ClickKind::Single
            }
        },
        None => ClickKind::Single,
    }
}

/// Remembers the last press.
pub struct ClickTracker {
    pub last: Option<ClickRecord>,
}

impl ClickTracker {
    pub fn new() -> (r: ClickTracker)
        ensures
            r.last.is_none(),
    {
        ClickTracker { last: None }
    }

    /// Classifies a press at `pos` at time `now` and remembers it.
    pub fn press(&mut self, now: u64, pos: Cursor) -> (r: ClickKind)
        ensures
            r == click_kind_spec(old(self).last, now, pos),
            final(self).last == Some(ClickRecord { kind: r, time_ms: now, pos }),
    {
        let k = next_click_kind(self.last, now, pos);
        self.last = Some(ClickRecord { kind: k, time_ms: now, pos });
        k
    }
}

/// Three presses at one position, each less than `CLICK_TIMING_MS` after the
/// one before, count as single, double and triple; a fourth counts as single
/// again.
pub proof fn lemma_click_cycle(t1: u64, t2: u64, t3: u64, t4: u64, pos: Cursor)
    requires
        t1 <= t2 && t2 - t1 < CLICK_TIMING_MS,
        t2 <= t3 && t3 - t2 < CLICK_TIMING_MS,
        t3 <= t4 && t4 - t3 < CLICK_TIMING_MS,
    ensures
        ({
            let k1 = click_kind_spec(None, t1, pos);
            let k2 = click_kind_spec(Some(ClickRecord { kind: k1, time_ms: t1, pos }), t2, pos);
            let k3 = click_kind_spec(Some(ClickRecord { kind: k2, time_ms: t2, pos }), t3, pos);
            let k4 = click_kind_spec(Some(ClickRecord { kind: k3, time_ms: t3, pos }), t4, pos);
            &&& k1 == ClickKind::Single
            &&& k2 == ClickKind::Double
            &&& k3 == ClickKind::Triple
            &&& k4 == ClickKind::Single
        }),
{
}

} // verus!

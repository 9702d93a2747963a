//! The Conquest victory rule.
use vstd::prelude::*;
use crate::axials::ascending;
use crate::coord::{axial_lt, Axial};
use crate::map::{Cell, HexMap, PlayerId};

verus! {

pub const BASIS_POINTS: u32 = 10_000;

#[derive(Clone, Copy, Debug, Eq, PartialEq, Structural)]
pub enum ConquestError {
    EmptyCapturableMap,
    InvalidThreshold,
}

/// Fixed-at-match-start Conquest denominator and threshold.
#[derive(Clone, Copy, Debug, Eq, PartialEq, Structural)]
pub struct ConquestRule {
    total_capturable: u64,
    threshold_bps: u32,
    required_control: u64,
}

/// Whether `required` is the least number of cells that reaches a threshold.
pub open spec fn reaches_threshold(required: int, total: int, threshold_bps: int) -> bool {
    &&& required * 10_000 >= total * threshold_bps
    &&& (required - 1) * 10_000 < total * threshold_bps
}

/// The capturable cells that a player owns.
pub open spec fn controlled_cells(cells: Map<Axial, Cell>, player: PlayerId) -> Set<Axial> {
    cells.dom().filter(|c: Axial| cells[c].capturable && cells[c].owner == Some(player))
}

impl ConquestRule {
    pub closed spec fn total(self) -> u64 {
        self.total_capturable
    }

    pub closed spec fn bps(self) -> u32 {
        self.threshold_bps
    }

    pub closed spec fn required(self) -> u64 {
        self.required_control
    }

    pub fn new(total_capturable: u64, threshold_bps: u32) -> (rule: Result<
        ConquestRule,
        ConquestError,
    >)
        ensures
            match rule {
                Ok(r) => {
                    &&& total_capturable > 0
                    &&& 0 < threshold_bps <= BASIS_POINTS
                    &&& r.total() == total_capturable
                    &&& r.bps() == threshold_bps
                    &&& reaches_threshold(
                        r.required() as int,
                        total_capturable as int,
                        threshold_bps as int,
                    )
                    &&& 0 < r.required() <= total_capturable
                },
                Err(ConquestError::EmptyCapturableMap) => total_capturable == 0,
                Err(ConquestError::InvalidThreshold) => total_capturable > 0 && !(0 < threshold_bps
                    <= BASIS_POINTS),
            },
    {
        if total_capturable == 0 {
            return Err(ConquestError::EmptyCapturableMap);
        }
        if threshold_bps == 0 || threshold_bps > BASIS_POINTS {
            return Err(ConquestError::InvalidThreshold);
        }
        assert(0 < total_capturable * threshold_bps <= total_capturable * 10_000) by (
        nonlinear_arith)
            requires
                0 < total_capturable,
                0 < threshold_bps <= 10_000,
        ;
        let numerator: u128 = total_capturable as u128 * threshold_bps as u128;
        let required: u128 = (numerator + 9_999) / 10_000;
        Ok(ConquestRule { total_capturable, threshold_bps, required_control: required as u64 })
    }

    /// The standard rule: eighty percent of the capturable cells.
    pub fn v1(total_capturable: u64) -> (rule: Result<ConquestRule, ConquestError>)
        ensures
            match rule {
                Ok(r) => {
                    &&& total_capturable > 0
                    &&& r.total() == total_capturable
                    &&& r.bps() == 8_000
                    &&& reaches_threshold(r.required() as int, total_capturable as int, 8_000)
                },
                Err(e) => total_capturable == 0 && e == ConquestError::EmptyCapturableMap,
            },
    {
        ConquestRule::new(total_capturable, 8_000)
    }

    pub fn total_capturable(self) -> (total: u64)
        ensures
            total == self.total(),
    {
        self.total_capturable
    }

    pub fn threshold_bps(self) -> (bps: u32)
        ensures
            bps == self.bps(),
    {
        self.threshold_bps
    }

    pub fn required_control(self) -> (required: u64)
        ensures
            required == self.required(),
    {
        self.required_control
    }

    pub fn progress(self, controlled: u64) -> (progress: ConquestProgress)
        ensures
            progress.controlled == (if controlled <= self.total() {
                controlled
            } else {
                self.total()
            }),
            progress.total_capturable == self.total(),
            progress.required_control == self.required(),
            progress.won == (progress.controlled >= self.required()),
    {
        let controlled: u64 = if controlled <= self.total_capturable {
            controlled
        } else {
            self.total_capturable
        };
        ConquestProgress {
            controlled,
            total_capturable: self.total_capturable,
            required_control: self.required_control,
            won: controlled >= self.required_control,
        }
    }

    pub fn progress_on_map(self, map: &HexMap, player: PlayerId) -> (progress: ConquestProgress)
        ensures
            progress.controlled == (if controlled_cells(map@, player).len() <= self.total() {
                controlled_cells(map@, player).len()
            } else {
                self.total() as nat
            }),
            progress.total_capturable == self.total(),
            progress.required_control == self.required(),
            progress.won == (progress.controlled >= self.required()),
    {
        let cells = map.cells();
        let keys = map.coordinates();
        let ghost chosen = |c: Axial| map@[c].capturable && map@[c].owner == Some(player);
        let mut controlled: u64 = 0;
        let mut i: usize = 0;
        assert(keys@.take(0).to_set().filter(chosen) =~= Set::empty());
        while i < cells.len()
            invariant
                i <= cells.len(),
                cells@.len() == keys@.len(),
                ascending(keys@),
                chosen == (|c: Axial| map@[c].capturable && map@[c].owner == Some(player)),
                forall|j: int| 0 <= j < cells@.len() ==> *(#[trigger] cells@[j]) == map@[keys@[j]],
                controlled <= i,
                keys@.take(i as int).to_set().filter(chosen).finite(),
                controlled == keys@.take(i as int).to_set().filter(chosen).len(),
            decreases cells.len() - i,
        {
            let cell = cells[i];
            proof {
                let t = keys@.take(i as int);
                let c = keys@[i as int];
                assert(keys@.take(i + 1) =~= t.push(c));
                crate::axials::lemma_to_set_push(t, c);
                assert(!t.to_set().contains(c)) by {
                    if t.contains(c) {
                        let k = choose|k: int| 0 <= k < t.len() && t[k] == c;
                        assert(axial_lt(keys@[k], keys@[i as int]));
                    }
                }
                if chosen(c) {
                    assert(t.to_set().insert(c).filter(chosen) =~= t.to_set().filter(chosen).insert(
                        c,
                    ));
                } else {
                    assert(t.to_set().insert(c).filter(chosen) =~= t.to_set().filter(chosen));
                }
            }
            let mine = match cell.owner {
                Some(owner) => owner == player,
                None => false,
            };
            if cell.capturable && mine {
                controlled = controlled + 1;
            }
            i += 1;
        }
        assert(keys@.take(i as int) =~= keys@);
        assert(keys@.to_set().filter(chosen) =~= controlled_cells(map@, player));
        self.progress(controlled)
    }
}

#[derive(Clone, Copy, Debug, Eq, PartialEq, Structural)]
pub struct ConquestProgress {
    pub controlled: u64,
    pub total_capturable: u64,
    pub required_control: u64,
    pub won: bool,
}

impl ConquestProgress {
    /// Display-only integer basis points, rounded down. Victory uses the exact
    /// cross-multiplied threshold captured by `required_control`.
    pub fn controlled_bps(self) -> (bps: u32)
        requires
            self.total_capturable > 0,
        ensures
            bps == ((self.controlled * 10_000) / self.total_capturable as int) as u32,
            self.controlled <= self.total_capturable ==> bps == (self.controlled * 10_000)
                / self.total_capturable as int && bps <= BASIS_POINTS,
    {
        proof {
            let c = self.controlled as int;
            let t = self.total_capturable as int;
            if c <= t {
                assert(c * 10_000 <= 10_000 * t);
                vstd::arithmetic::div_mod::lemma_div_is_ordered(c * 10_000, 10_000 * t, t);
                vstd::arithmetic::div_mod::lemma_div_by_multiple(10_000, t);
                vstd::arithmetic::div_mod::lemma_div_pos_is_pos(c * 10_000, t);
            }
        }
        #[verifier::truncate]
        let bps: u32 = ((self.controlled as u128 * 10_000) / self.total_capturable as u128) as u32;
        bps
    }
}

/// The least number that reaches a threshold is unique.
pub proof fn law_required_control_is_unique(a: int, b: int, total: int, threshold_bps: int)
    requires
        reaches_threshold(a, total, threshold_bps),
        reaches_threshold(b, total, threshold_bps),
    ensures
        a == b,
{
}

/// A player wins exactly when the exact ratio of controlled cells reaches the
/// threshold, of the cells that count and, under a threshold of at most the
/// whole, of all the cells named.
pub proof fn law_victory_is_the_exact_ratio(
    rule: ConquestRule,
    controlled: u64,
    progress: ConquestProgress,
)
    requires
        reaches_threshold(rule.required() as int, rule.total() as int, rule.bps() as int),
        progress.controlled == (if controlled <= rule.total() {
            controlled
        } else {
            rule.total()
        }),
        progress.won == (progress.controlled >= rule.required()),
    ensures
        progress.won <==> progress.controlled * 10_000 >= rule.total() * rule.bps(),
        rule.bps() <= BASIS_POINTS ==> (progress.won <==> controlled * 10_000 >= rule.total()
            * rule.bps()),
{
    if rule.bps() <= BASIS_POINTS {
        assert(rule.total() * rule.bps() <= rule.total() * 10_000) by (nonlinear_arith)
            requires
                rule.bps() <= 10_000,
        ;
    }
}

} // verus!

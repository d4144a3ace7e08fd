//! The state of the earlier search driver: its best move so far, its
//! evaluation, search counters and the clock of the current turn.
use vstd::prelude::*;

verus! {

/// An outside type: the clock reading a turn started at.
#[verifier::external_type_specification]
#[verifier::external_body]
pub struct ExInstant(std::time::Instant);

/// Reads the clock (`std::time::Instant::now`); nothing is stated of the reading.
#[verifier::external_body]
pub(crate) fn now() -> (r: std::time::Instant) {
    std::time::Instant::now()
}

/// The microseconds that passed since `start` (`std::time::Instant::elapsed`,
/// read as whole microseconds); nothing is stated of the reading.
#[verifier::external_body]
pub(crate) fn elapsed_micros(start: &std::time::Instant) -> (r: u128) {
    start.elapsed().as_micros()
}

/// Which sides the engine plays (`Nobody`: neither side).
#[derive(PartialEq, Eq, Structural)]
pub enum MaxwellPlaying {
    Nobody,
    White,
    Black,
    Both,
}

pub const MAXWELL_PLAYING: MaxwellPlaying = MaxwellPlaying::White;

pub struct Maxwell {
    pub best_move: u32,
    pub best_move_this_iteration: u32,
    pub evaluation: i32,
    pub evaluation_this_iteration: i32,
    pub in_opening: bool,
    pub positions_searched: u128,
    pub quiescence_positions_searched: u128,
    pub turn_timer: std::time::Instant,
    pub cancelled_search: bool,
    pub has_searched_one_move: bool,
    pub best_move_depth_searched_at: u16,
}

impl Maxwell {
    /// A driver with no move and no evaluation yet, still in the opening,
    /// whose turn clock starts now.
    pub fn new() -> (r: Self)
        ensures
            r.best_move == 0,
            r.best_move_this_iteration == 0,
            r.evaluation == 0,
            r.evaluation_this_iteration == 0,
            r.in_opening,
            r.positions_searched == 0,
            r.quiescence_positions_searched == 0,
            !r.cancelled_search,
            !r.has_searched_one_move,
            r.best_move_depth_searched_at == 0,
    {
        Maxwell {
            best_move: 0,
            best_move_this_iteration: 0,
            evaluation: 0,
            evaluation_this_iteration: 0,
            in_opening: true,
            positions_searched: 0,
            quiescence_positions_searched: 0,
            turn_timer: now(),
            cancelled_search: false,
            has_searched_one_move: false,
            best_move_depth_searched_at: 0,
        }
    }
}

} // verus!

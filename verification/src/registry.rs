//! The process-wide game registry.
//!
//! The registry owns every live game and arbitrates identifier allocation.
//! It is modeled as an arena: the game with id `i + 1` sits at index `i`, so
//! ids are contiguous from 1 and the next id is always one more than the
//! greatest id present. Each `&mut self` operation is one critical section;
//! the caller serializes them behind one mutual-exclusion guard, so under any
//! interleaving the ids handed out are the ids of the sequential composition.

use crate::color::Color;
use crate::game::{
    avail_seq, grant, joinable, past_selection, players_of, seats_after_join, Game, GameError,
    Status,
};
use vstd::prelude::*;

verus! {

/// Why a registry request failed.
#[derive(Clone, Copy, Debug, PartialEq, Eq, Structural)]
pub enum RegistryError {
    /// No game with the requested id exists.
    NotFound,
    /// The game exists but refused the operation.
    Game(GameError),
}

/// The shared state behind the session handlers: the arena of games.
#[derive(Debug)]
pub struct AppState {
    pub games: Vec<Game>,
}

impl View for AppState {
    type V = Seq<Game>;

    open spec fn view(&self) -> Seq<Game> {
        self.games@
    }
}

/// Whether `id` names a game of the arena: ids run from 1 to the number of
/// games.
pub open spec fn valid_id(s: Seq<Game>, id: u32) -> bool {
    1 <= id <= s.len()
}

impl AppState {
    /// The arena invariant: the game at index `i` is well formed and carries
    /// id `i + 1`, and every id fits in the id type.
    pub open spec fn wf(self) -> bool {
        &&& self@.len() <= u32::MAX
        &&& forall|i: int|
            0 <= i < self@.len() ==> (#[trigger] self@[i]).wf() && self@[i].id == i + 1
    }

    /// An empty registry.
    pub fn new() -> (s: AppState)
        ensures
            s.wf(),
            s@.len() == 0,
    {
        AppState { games: Vec::new() }
    }

    /// Allocates the next id and inserts a fresh game under it, as one
    /// critical section: the id is one more than the greatest id present,
    /// so it is strictly greater than every id handed out before.
    pub fn create_game(&mut self) -> (id: u32)
        requires
            old(self).wf(),
            old(self)@.len() < u32::MAX,
        ensures
            final(self).wf(),
            id == old(self)@.len() + 1,
            final(self)@.len() == old(self)@.len() + 1,
            forall|i: int| 0 <= i < old(self)@.len() ==> final(self)@[i] == old(self)@[i],
            final(self)@[old(self)@.len() as int].id == id,
            final(self)@[old(self)@.len() as int].status is Created,
            forall|i: int| 0 <= i < old(self)@.len() ==> (#[trigger] old(self)@[i]).id < id,
    {
        let next_key = self.games.len() as u32 + 1;
        self.games.push(Game::new(next_key));
        next_key
    }

    /// The unclaimed colors of the game named by `id`, or `NotFound`.
    pub fn available_colors(&self, id: u32) -> (r: Result<Vec<Color>, RegistryError>)
        requires
            self.wf(),
        ensures
            valid_id(self@, id) ==> (r matches Ok(colors) && colors@ == avail_seq(
                self@[id - 1].status,
            )),
            !valid_id(self@, id) ==> r == Err::<Vec<Color>, RegistryError>(
                RegistryError::NotFound,
            ),
    {
        if id == 0 || id as usize > self.games.len() {
            return Err(RegistryError::NotFound);
        }
        let g = &self.games[(id - 1) as usize];
        Ok(g.available_colors())
    }

    /// Seats a join request on the game named by `id`, inside one critical
    /// section; the granted color follows `grant`, and game-level refusals
    /// are passed through.
    pub fn join_game(&mut self, id: u32, color: Color) -> (r: Result<Color, RegistryError>)
        requires
            old(self).wf(),
        ensures
            final(self).wf(),
            final(self)@.len() == old(self)@.len(),
            !valid_id(old(self)@, id) ==> r == Err::<Color, RegistryError>(RegistryError::NotFound)
                && *final(self) == *old(self),
            valid_id(old(self)@, id) ==> {
                let g0 = old(self)@[id - 1].status;
                &&& forall|j: int|
                    0 <= j < old(self)@.len() && j != id - 1 ==> final(self)@[j] == old(self)@[j]
                &&& joinable(g0) ==> {
                    &&& r == Ok::<Color, RegistryError>(grant(players_of(g0), color))
                    &&& final(self)@[id - 1].status is ColorSelection
                    &&& seats_after_join(
                        players_of(g0),
                        players_of(final(self)@[id - 1].status),
                        grant(players_of(g0), color),
                    )
                }
                &&& (g0 matches Status::ColorSelection { players } && players@.len() >= 4) ==> r
                    == Err::<Color, RegistryError>(RegistryError::Game(GameError::NoColorAvailable))
                    && final(self)@[id - 1] == old(self)@[id - 1]
                &&& past_selection(g0) ==> r == Err::<Color, RegistryError>(
                    RegistryError::Game(GameError::WrongStatus),
                ) && final(self)@[id - 1] == old(self)@[id - 1]
            },
    {
        if id == 0 || id as usize > self.games.len() {
            return Err(RegistryError::NotFound);
        }
        let g = &mut self.games[(id - 1) as usize];
        match g.join(color) {
            Ok(granted) => Ok(granted),
            Err(e) => Err(RegistryError::Game(e)),
        }
    }

    /// Starts the game named by `id`, inside one critical section; game-level
    /// refusals are passed through.
    pub fn start_game(&mut self, id: u32) -> (r: Result<(), RegistryError>)
        requires
            old(self).wf(),
        ensures
            final(self).wf(),
            final(self)@.len() == old(self)@.len(),
            !valid_id(old(self)@, id) ==> r == Err::<(), RegistryError>(RegistryError::NotFound)
                && *final(self) == *old(self),
            valid_id(old(self)@, id) ==> {
                let g0 = old(self)@[id - 1].status;
                &&& forall|j: int|
                    0 <= j < old(self)@.len() && j != id - 1 ==> final(self)@[j] == old(self)@[j]
                &&& (g0 matches Status::ColorSelection { players } && players@.len() >= 2) ==> r
                    is Ok && final(self)@[id - 1].status is InProgress && players_of(
                    final(self)@[id - 1].status,
                ) == players_of(g0)
                &&& (g0 is Created || (g0 matches Status::ColorSelection { players }
                    && players@.len() < 2)) ==> r == Err::<(), RegistryError>(
                    RegistryError::Game(GameError::NotEnoughPlayers),
                ) && final(self)@[id - 1] == old(self)@[id - 1]
                &&& past_selection(g0) ==> r == Err::<(), RegistryError>(
                    RegistryError::Game(GameError::WrongStatus),
                ) && final(self)@[id - 1] == old(self)@[id - 1]
            },
    {
        if id == 0 || id as usize > self.games.len() {
            return Err(RegistryError::NotFound);
        }
        let g = &mut self.games[(id - 1) as usize];
        match g.start() {
            Ok(()) => Ok(()),
            Err(e) => Err(RegistryError::Game(e)),
        }
    }
}

/// Identifier allocation is sound: under the arena invariant the stored ids
/// are pairwise distinct and gapless, exactly 1 up to the number of games,
/// as a single-threaded run of `create_game` would produce them.
pub proof fn lemma_ids_distinct_and_gapless(s: AppState)
    requires
        s.wf(),
    ensures
        forall|i: int, j: int| 0 <= i < j < s@.len() ==> (#[trigger] s@[i]).id != (#[trigger] s@[j]).id,
        forall|i: int| 0 <= i < s@.len() ==> 1 <= (#[trigger] s@[i]).id <= s@.len(),
{
}

} // verus!

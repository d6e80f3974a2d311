//! A game: an identifier and a lifecycle status.
//!
//! The lifecycle runs `Created -> ColorSelection -> InProgress -> Completed`,
//! with `Abandoned` reachable from every non-terminal state. Seats are taken
//! one by one during color selection; a start needs at least two seats.

use crate::board::AntiClockNeighbor;
use crate::color::Color;
use crate::player::Player;
use vstd::prelude::*;

verus! {

/// Lifecycle status of a game. Once players join, the status owns them.
#[derive(Debug)]
pub enum Status {
    /// Just created; nobody has joined.
    Created,
    /// Players are picking colors; between 1 and 4 seats are taken.
    ColorSelection { players: Vec<Player> },
    /// The match is running.
    InProgress { players: Vec<Player> },
    /// Every client left before the match ended; terminal.
    Abandoned,
    /// The match ended normally; terminal.
    Completed { players: Vec<Player> },
}

/// Why a lifecycle operation was rejected.
#[derive(Clone, Copy, Debug, PartialEq, Eq, Structural)]
pub enum GameError {
    /// All four colors are taken; no further seat can be granted.
    NoColorAvailable,
    /// A start needs at least two seated players.
    NotEnoughPlayers,
    /// The operation does not apply to the game's current status.
    WrongStatus,
}

/// The players a status carries; none before color selection and none after
/// abandonment.
pub open spec fn players_of(s: Status) -> Seq<Player> {
    match s {
        Status::Created => Seq::empty(),
        Status::ColorSelection { players } => players@,
        Status::InProgress { players } => players@,
        Status::Abandoned => Seq::empty(),
        Status::Completed { players } => players@,
    }
}

/// Whether some seated player already holds color `c`.
pub open spec fn claimed(ps: Seq<Player>, c: Color) -> bool {
    exists|i: int| 0 <= i < ps.len() && ps[i].color_spec() == c
}

/// At most four seats, each well formed, and no color taken twice.
pub open spec fn players_wf(ps: Seq<Player>) -> bool {
    &&& ps.len() <= 4
    &&& forall|i: int| 0 <= i < ps.len() ==> (#[trigger] ps[i]).wf()
    &&& forall|i: int, j: int|
        0 <= i < j < ps.len() ==> (#[trigger] ps[i]).color_spec() != (#[trigger] ps[j]).color_spec()
}

/// Whether the game has moved past color selection: running, ended or
/// abandoned.
pub open spec fn past_selection(s: Status) -> bool {
    s is InProgress || s is Completed || s is Abandoned
}

/// Whether a join request can be seated: before the game starts and while a
/// seat is still free.
pub open spec fn joinable(s: Status) -> bool {
    match s {
        Status::Created => true,
        Status::ColorSelection { players } => players@.len() < 4,
        _ => false,
    }
}

/// The color a join request is granted: the requested color if it is free,
/// otherwise the nearest free color in the fixed anticlockwise order.
pub open spec fn grant(ps: Seq<Player>, c: Color) -> Color {
    if !claimed(ps, c) {
        c
    } else if !claimed(ps, c.neighbor_spec()) {
        c.neighbor_spec()
    } else if !claimed(ps, c.neighbor_spec().neighbor_spec()) {
        c.neighbor_spec().neighbor_spec()
    } else {
        c.neighbor_spec().neighbor_spec().neighbor_spec()
    }
}

/// The seat a successful join adds: a fresh player of color `c`, named
/// after it, with all four tokens at home.
pub open spec fn joined_player(p: Player, c: Color) -> bool {
    &&& p.wf()
    &&& p.color_spec() == c
    &&& p.name@ == c.label_spec()
    &&& forall|i: int| 0 <= i < 4 ==> (#[trigger] p.tokens@[i]).status is Home
}

/// How a successful join changes the seats: the old ones stay, in order,
/// and one fresh seat of color `c` is appended.
pub open spec fn seats_after_join(old_ps: Seq<Player>, new_ps: Seq<Player>, c: Color) -> bool {
    &&& new_ps.len() == old_ps.len() + 1
    &&& forall|i: int| 0 <= i < old_ps.len() ==> new_ps[i] == old_ps[i]
    &&& joined_player(new_ps[old_ps.len() as int], c)
}

/// While a seat is free, walking the four colors from any start in
/// anticlockwise order finds a free one, so the granted color is never
/// already taken.
pub proof fn lemma_grant_free(ps: Seq<Player>, c: Color)
    requires
        players_wf(ps),
        ps.len() < 4,
    ensures
        !claimed(ps, grant(ps, c)),
{
    let c1 = c.neighbor_spec();
    let c2 = c1.neighbor_spec();
    let c3 = c2.neighbor_spec();
    if claimed(ps, c) && claimed(ps, c1) && claimed(ps, c2) && claimed(ps, c3) {
        let i0 = choose|i: int| 0 <= i < ps.len() && ps[i].color_spec() == c;
        let i1 = choose|i: int| 0 <= i < ps.len() && ps[i].color_spec() == c1;
        let i2 = choose|i: int| 0 <= i < ps.len() && ps[i].color_spec() == c2;
        let i3 = choose|i: int| 0 <= i < ps.len() && ps[i].color_spec() == c3;
        assert(i0 != i1 && i0 != i2 && i0 != i3 && i1 != i2 && i1 != i3 && i2 != i3);
        assert(ps.len() >= 4);
    }
}

/// Finds the granted color for a join request: the requested one if free,
/// else the nearest free neighbour anticlockwise.
fn pick_free(players: &Vec<Player>, requested: Color) -> (r: Color)
    requires
        players_wf(players@),
        players@.len() < 4,
    ensures
        r == grant(players@, requested),
        !claimed(players@, r),
{
    let c0 = requested;
    if !vec_has_color(players, c0) {
        return c0;
    }
    let c1 = c0.neighbor();
    if !vec_has_color(players, c1) {
        return c1;
    }
    let c2 = c1.neighbor();
    if !vec_has_color(players, c2) {
        return c2;
    }
    let c3 = c2.neighbor();
    proof {
        lemma_grant_free(players@, requested);
    }
    c3
}

/// Whether any seat in `players` holds color `c`.
fn vec_has_color(players: &Vec<Player>, c: Color) -> (b: bool)
    requires
        forall|i: int| 0 <= i < players@.len() ==> (#[trigger] players@[i]).wf(),
    ensures
        b == claimed(players@, c),
{
    let mut i: usize = 0;
    while i < players.len()
        invariant
            0 <= i <= players@.len(),
            forall|k: int| 0 <= k < players@.len() ==> (#[trigger] players@[k]).wf(),
            forall|k: int| 0 <= k < i ==> (#[trigger] players@[k]).color_spec() != c,
        decreases players@.len() - i,
    {
        if players[i].color() == c {
            return true;
        }
        i += 1;
    }
    false
}

/// A game: a registry-unique identifier, fixed at creation, and a lifecycle
/// status.
#[derive(Debug)]
pub struct Game {
    pub id: u32,
    pub status: Status,
}

impl Game {
    /// The seats of this game are well formed.
    pub open spec fn wf(self) -> bool {
        players_wf(players_of(self.status))
    }

    /// A fresh game in status `Created`.
    pub fn new(id: u32) -> (g: Game)
        ensures
            g.id == id,
            g.status is Created,
            g.wf(),
    {
        Game { id, status: Status::Created }
    }

    /// Whether some seated player already holds color `c`.
    pub fn has_color(&self, c: Color) -> (b: bool)
        requires
            self.wf(),
        ensures
            b == claimed(players_of(self.status), c),
    {
        match &self.status {
            Status::Created => false,
            Status::Abandoned => false,
            Status::ColorSelection { players } => vec_has_color(players, c),
            Status::InProgress { players } => vec_has_color(players, c),
            Status::Completed { players } => vec_has_color(players, c),
        }
    }

    /// The colors no seated player holds, in the fixed order Yellow, Blue,
    /// Red, Green.
    pub fn available_colors(&self) -> (r: Vec<Color>)
        requires
            self.wf(),
        ensures
            r@ == avail_seq(self.status),
    {
        let mut r: Vec<Color> = Vec::new();
        if !self.has_color(Color::Yellow) {
            r.push(Color::Yellow);
        }
        if !self.has_color(Color::Blue) {
            r.push(Color::Blue);
        }
        if !self.has_color(Color::Red) {
            r.push(Color::Red);
        }
        if !self.has_color(Color::Green) {
            r.push(Color::Green);
        }
        proof {
            assert(r@ =~= avail_seq(self.status));
        }
        r
    }

    /// Seats a join request. While the game is joinable the granted color is
    /// exactly `grant`, which may differ from the requested color when that
    /// is already taken; a full color-selection round reports
    /// `NoColorAvailable`, and a game past selection `WrongStatus`.
    pub fn join(&mut self, color: Color) -> (r: Result<Color, GameError>)
        requires
            old(self).wf(),
        ensures
            final(self).wf(),
            final(self).id == old(self).id,
            joinable(old(self).status) ==> {
                &&& r == Ok::<Color, GameError>(grant(players_of(old(self).status), color))
                &&& final(self).status is ColorSelection
                &&& seats_after_join(
                    players_of(old(self).status),
                    players_of(final(self).status),
                    grant(players_of(old(self).status), color),
                )
            },
            old(self).status matches Status::ColorSelection { players } && players@.len() >= 4
                ==> r == Err::<Color, GameError>(GameError::NoColorAvailable)
                && *final(self) == *old(self),
            past_selection(old(self).status) ==> r == Err::<Color, GameError>(
                GameError::WrongStatus,
            ) && *final(self) == *old(self),
    {
        if matches!(self.status, Status::Created) {
            let mut players: Vec<Player> = Vec::new();
            players.push(Player::new(color, color.label()));
            self.status = Status::ColorSelection { players };
            return Ok(color);
        }
        match &mut self.status {
            Status::ColorSelection { players } => {
                if players.len() >= 4 {
                    return Err(GameError::NoColorAvailable);
                }
                let granted = pick_free(players, color);
                players.push(Player::new(granted, granted.label()));
                Ok(granted)
            }
            _ => Err(GameError::WrongStatus),
        }
    }

    /// Starts the match once at least two seats are taken, carrying the
    /// seated players over unchanged.
    pub fn start(&mut self) -> (r: Result<(), GameError>)
        requires
            old(self).wf(),
        ensures
            final(self).wf(),
            final(self).id == old(self).id,
            old(self).status matches Status::ColorSelection { players } && players@.len() >= 2
                ==> r is Ok && final(self).status is InProgress && players_of(final(self).status)
                == players_of(old(self).status),
            (old(self).status is Created || (old(self).status matches Status::ColorSelection {
                players,
            } && players@.len() < 2)) ==> r == Err::<(), GameError>(GameError::NotEnoughPlayers)
                && *final(self) == *old(self),
            past_selection(old(self).status) ==> r == Err::<(), GameError>(GameError::WrongStatus)
                && *final(self) == *old(self),
    {
        let mut taken = Status::Created;
        core::mem::swap(&mut self.status, &mut taken);
        match taken {
            Status::ColorSelection { players } => {
                if players.len() >= 2 {
                    self.status = Status::InProgress { players };
                    Ok(())
                } else {
                    self.status = Status::ColorSelection { players };
                    Err(GameError::NotEnoughPlayers)
                }
            }
            Status::Created => {
                self.status = Status::Created;
                Err(GameError::NotEnoughPlayers)
            }
            other => {
                self.status = other;
                Err(GameError::WrongStatus)
            }
        }
    }

    /// Ends a running match normally, keeping the players.
    pub fn complete(&mut self) -> (r: Result<(), GameError>)
        requires
            old(self).wf(),
        ensures
            final(self).wf(),
            final(self).id == old(self).id,
            old(self).status is InProgress ==> r is Ok && final(self).status is Completed
                && players_of(final(self).status) == players_of(old(self).status),
            !(old(self).status is InProgress) ==> r == Err::<(), GameError>(GameError::WrongStatus)
                && *final(self) == *old(self),
    {
        let mut taken = Status::Created;
        core::mem::swap(&mut self.status, &mut taken);
        match taken {
            Status::InProgress { players } => {
                self.status = Status::Completed { players };
                Ok(())
            }
            other => {
                self.status = other;
                Err(GameError::WrongStatus)
            }
        }
    }

    /// Marks a game every client has left. Allowed from every non-terminal
    /// status; `Completed` and `Abandoned` stay as they are.
    pub fn abandon(&mut self) -> (r: Result<(), GameError>)
        requires
            old(self).wf(),
        ensures
            final(self).wf(),
            final(self).id == old(self).id,
            !(old(self).status is Completed || old(self).status is Abandoned) ==> r is Ok
                && final(self).status is Abandoned,
            (old(self).status is Completed || old(self).status is Abandoned) ==> r == Err::<
                (),
                GameError,
            >(GameError::WrongStatus) && *final(self) == *old(self),
    {
        match &self.status {
            Status::Completed { .. } => Err(GameError::WrongStatus),
            Status::Abandoned => Err(GameError::WrongStatus),
            _ => {
                self.status = Status::Abandoned;
                Ok(())
            }
        }
    }
}

/// The colors not yet claimed, in the fixed order Yellow, Blue, Red, Green.
pub open spec fn avail_seq(s: Status) -> Seq<Color> {
    let ps = players_of(s);
    (if !claimed(ps, Color::Yellow) {
        seq![Color::Yellow]
    } else {
        Seq::empty()
    }) + (if !claimed(ps, Color::Blue) {
        seq![Color::Blue]
    } else {
        Seq::empty()
    }) + (if !claimed(ps, Color::Red) {
        seq![Color::Red]
    } else {
        Seq::empty()
    }) + (if !claimed(ps, Color::Green) {
        seq![Color::Green]
    } else {
        Seq::empty()
    })
}

} // verus!

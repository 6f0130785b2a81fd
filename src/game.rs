//! The game state: each player's five ship layers and the shots they fired.
use vstd::prelude::*;

use crate::board_api::{
    create_surround_mask, is_valid_board, lemma_and_zero, lemma_cells_ops, lemma_cells_of, lemma_masks_are_boards,
    neighbourhood, surround,
};
use crate::bits::{cell_index, cells, in_grid, is_board};

verus! {

/// Number of ships, and so of ship layers, that each player has.
pub const SHIPS_COUNT: usize = 5;

/// The size of the ship in each layer.
pub const SHIP_SIZES: [usize; 5] = [5, 4, 3, 3, 2];

// • aircraft carrier - 5 cells;
// • cruiser - 4 cells;
// • destroyer - 3 cells;
// • submarine - 3 cells;
// • patrol boat - 2 cells.
#[derive(Copy, Clone, Debug)]
pub struct Game {
    pub ships_alpha: [u128; 5],
    pub ships_beta: [u128; 5],
    pub shoots_alpha: u128,
    pub shoots_beta: u128,
}

#[derive(Copy, Clone, Debug, PartialEq, Eq, Structural)]
pub enum Player {
    Alpha,
    Beta,
}

/// The player that `p` plays against.
pub open spec fn opponent(p: Player) -> Player {
    match p {
        Player::Alpha => Player::Beta,
        Player::Beta => Player::Alpha,
    }
}

/// The union of five ship layers.
pub open spec fn fleet_board(ships: [u128; 5]) -> u128 {
    ships[0] | ships[1] | ships[2] | ships[3] | ships[4]
}

/// Whether `layer` has every one of its cells under `shots`.
pub open spec fn sunk(layer: u128, shots: u128) -> bool {
    layer & !shots == 0
}

/// The union of the neighbourhood masks of those of the first `n` layers that
/// `shots` sinks.
pub open spec fn revealed(ships: [u128; 5], shots: u128, n: nat) -> u128
    decreases n,
{
    if n == 0 {
        0
    } else {
        let layer = ships[n - 1];
        if sunk(layer, shots) {
            revealed(ships, shots, (n - 1) as nat) | surround(layer)
        } else {
            revealed(ships, shots, (n - 1) as nat)
        }
    }
}

impl Player {
    pub fn other(&self) -> (r: Player)
        ensures
            r == opponent(*self),
    {
        match self {
            Player::Alpha => Player::Beta,
            Player::Beta => Player::Alpha,
        }
    }
}

impl Default for Game {
    /// A game before any ship is placed or shot fired: every board empty.
    fn default() -> (r: Game)
        ensures
            r.ships_alpha@ == seq![0u128, 0, 0, 0, 0],
            r.ships_beta@ == seq![0u128, 0, 0, 0, 0],
            r.shoots_alpha == 0,
            r.shoots_beta == 0,
            r.wf(),
    {
        proof {
            lemma_masks_are_boards();
        }
        let r = Game {
            ships_alpha: [0, 0, 0, 0, 0],
            ships_beta: [0, 0, 0, 0, 0],
            shoots_alpha: 0,
            shoots_beta: 0,
        };
        assert(r.ships_alpha@ =~= seq![0u128, 0, 0, 0, 0]);
        assert(r.ships_beta@ =~= seq![0u128, 0, 0, 0, 0]);
        r
    }
}

impl Game {
    /// Every ship layer and both shot boards are valid boards.
    pub open spec fn wf(&self) -> bool {
        &&& forall|i: int| 0 <= i < 5 ==> is_board(#[trigger] self.ships_alpha[i])
        &&& forall|i: int| 0 <= i < 5 ==> is_board(#[trigger] self.ships_beta[i])
        &&& is_board(self.shoots_alpha)
        &&& is_board(self.shoots_beta)
    }

    /// The ship layers of `p`.
    pub open spec fn fleet(&self, p: Player) -> [u128; 5] {
        match p {
            Player::Alpha => self.ships_alpha,
            Player::Beta => self.ships_beta,
        }
    }

    /// Every cell that a ship of `p` covers.
    pub open spec fn board(&self, p: Player) -> u128 {
        fleet_board(self.fleet(p))
    }

    /// Every cell that `p` has fired at, or learnt to be empty.
    pub open spec fn shots(&self, p: Player) -> u128 {
        match p {
            Player::Alpha => self.shoots_alpha,
            Player::Beta => self.shoots_beta,
        }
    }

    /// Whether `ship` keeps one clear cell, diagonals included, from every
    /// ship of `p`.
    pub open spec fn placeable(&self, p: Player, ship: u128) -> bool {
        surround(ship) & self.board(p) == 0
    }

    /// This game with the shots of `p` replaced by `s`.
    pub open spec fn with_shots(self, p: Player, s: u128) -> Game {
        match p {
            Player::Alpha => Game { shoots_alpha: s, ..self },
            Player::Beta => Game { shoots_beta: s, ..self },
        }
    }

    /// This game with layer `i` of `p` replaced by `layer`.
    pub open spec fn with_layer(self, p: Player, i: int, layer: u128) -> Game {
        match p {
            Player::Alpha => Game {
                ships_alpha: vstd::array::spec_array_update(self.ships_alpha, i, layer),
                ..self
            },
            Player::Beta => Game {
                ships_beta: vstd::array::spec_array_update(self.ships_beta, i, layer),
                ..self
            },
        }
    }

    /// The shots of `p` after firing at `target`: the target is added, then the
    /// neighbourhood of every enemy layer that is now sunk.
    pub open spec fn shots_after(&self, p: Player, target: u128) -> u128 {
        let s = self.shots(p) | target;
        s | revealed(self.fleet(opponent(p)), s, 5)
    }

    /// The winner, if any: Alpha when every cell of Beta's ships is shot, else
    /// Beta when every cell of Alpha's ships is shot.
    pub open spec fn winner(&self) -> Option<Player> {
        if self.board(Player::Beta) & !self.shoots_alpha == 0 {
            Some(Player::Alpha)
        } else if self.board(Player::Alpha) & !self.shoots_beta == 0 {
            Some(Player::Beta)
        } else {
            None
        }
    }

    /// Whether every layer and shot board is a valid board.
    pub fn is_well_formed(&self) -> (r: bool)
        ensures
            r == self.wf(),
    {
        let mut i: usize = 0;
        while i < SHIPS_COUNT
            invariant
                i <= 5,
                forall|j: int| 0 <= j < i ==> is_board(#[trigger] self.ships_alpha[j]),
                forall|j: int| 0 <= j < i ==> is_board(#[trigger] self.ships_beta[j]),
            decreases 5 - i,
        {
            if !is_valid_board(self.ships_alpha[i]) || !is_valid_board(self.ships_beta[i]) {
                return false;
            }
            i += 1;
        }
        is_valid_board(self.shoots_alpha) && is_valid_board(self.shoots_beta)
    }

    /// The union of the ship layers of `player`.
    pub fn get_board(&self, player: Player) -> (r: u128)
        ensures
            r == self.board(player),
    {
        let ships = match player {
            Player::Alpha => self.ships_alpha,
            Player::Beta => self.ships_beta,
        };
        ships[0] | ships[1] | ships[2] | ships[3] | ships[4]
    }

    /// Every cell that `player` has fired at or has had revealed.
    pub fn get_shoots(&self, player: Player) -> (r: u128)
        ensures
            r == self.shots(player),
    {
        match player {
            Player::Alpha => self.shoots_alpha,
            Player::Beta => self.shoots_beta,
        }
    }

    /// Whether `ship` neither overlaps nor touches, even diagonally, a ship
    /// that `player` has placed.
    pub fn can_place_ship(&self, player: Player, ship: u128) -> (r: bool)
        requires
            is_board(ship),
        ensures
            r == self.placeable(player, ship),
    {
        let mask = create_surround_mask(ship);
        let board = self.get_board(player);

        mask & board == 0
    }

    /// Fires `player`'s shot at the cells of `shoot`. Every enemy layer that
    /// is then wholly under the player's shots has its neighbourhood added to
    /// those shots as well.
    pub fn shoot(&mut self, player: Player, shoot: u128)
        requires
            old(self).wf(),
            is_board(shoot),
        ensures
            final(self).wf(),
            *final(self) == old(self).with_shots(player, old(self).shots_after(player, shoot)),
    {
        let shoots = self.get_shoots(player) | shoot;
        let layers = match player {
            Player::Alpha => self.ships_beta,
            Player::Beta => self.ships_alpha,
        };
        proof {
            lemma_cells_ops(self.shots(player), shoot);
            lemma_or_assoc(shoots, 0, 0);
        }
        let mut result = shoots;
        let mut i: usize = 0;
        while i < SHIPS_COUNT
            invariant
                i <= 5,
                layers == self.fleet(opponent(player)),
                self.wf(),
                is_board(shoots),
                is_board(result),
                result == shoots | revealed(layers, shoots, i as nat),
            decreases 5 - i,
        {
            let layer = layers[i];
            if layer & !shoots == 0 {
                let mask = create_surround_mask(layer);
                proof {
                    lemma_or_assoc(shoots, revealed(layers, shoots, i as nat), mask);
                    lemma_cells_ops(result, mask);
                }
                result = result | mask;
            }
            i += 1;
        }
        match player {
            Player::Alpha => self.shoots_alpha = result,
            Player::Beta => self.shoots_beta = result,
        }
    }

    /// The winner, if the game is over.
    pub fn get_winner(&self) -> (r: Option<Player>)
        ensures
            r == self.winner(),
    {
        if self.get_board(Player::Beta) & !self.shoots_alpha == 0 {
            return Some(Player::Alpha);
        }
        if self.get_board(Player::Alpha) & !self.shoots_beta == 0 {
            return Some(Player::Beta);
        }
        None
    }

    /// Whether one of the players has won.
    pub fn is_over(&self) -> (r: bool)
        ensures
            r == self.winner().is_some(),
    {
        self.get_winner().is_some()
    }

    /// Places `ship` into layer `layer` of `player`, if it neither overlaps
    /// nor touches any of that player's ships; else leaves the game as it was.
    pub fn add_ship(&mut self, player: Player, ship: u128, layer: usize) -> (r: Result<(), ()>)
        requires
            old(self).wf(),
            is_board(ship),
            layer < 5,
        ensures
            final(self).wf(),
            r is Ok <==> old(self).placeable(player, ship),
            r is Ok ==> *final(self) == old(self).with_layer(
                player,
                layer as int,
                old(self).fleet(player)[layer as int] | ship,
            ),
            r is Err ==> *final(self) == *old(self),
    {
        if !self.can_place_ship(player, ship) {
            return Err(());
        }
        proof {
            lemma_cells_ops(self.fleet(player)[layer as int], ship);
        }
        match player {
            Player::Alpha => self.ships_alpha[layer] = self.ships_alpha[layer] | ship,
            Player::Beta => self.ships_beta[layer] = self.ships_beta[layer] | ship,
        };

        Ok(())
    }
}

/// `|` is associative, and zero is its unit.
proof fn lemma_or_assoc(a: u128, b: u128, c: u128)
    by (bit_vector)
    ensures
        (a | b) | c == a | (b | c),
        a | 0u128 == a,
{
}


/// Cells `a` and `b` are the same or neighbours, diagonals included: their
/// Chebyshev distance is at most one.
pub open spec fn touching(a: (int, int), b: (int, int)) -> bool {
    -1 <= a.0 - b.0 <= 1 && -1 <= a.1 - b.1 <= 1
}

/// The union of five valid layers is a valid board holding their cells.
pub proof fn lemma_fleet_board(ships: [u128; 5])
    requires
        forall|i: int| 0 <= i < 5 ==> is_board(#[trigger] ships[i]),
    ensures
        is_board(fleet_board(ships)),
        cells(fleet_board(ships)) == cells(ships[0]).union(cells(ships[1])).union(
            cells(ships[2]),
        ).union(cells(ships[3])).union(cells(ships[4])),
{
    assert(is_board(ships[0]) && is_board(ships[1]) && is_board(ships[2]));
    assert(is_board(ships[3]) && is_board(ships[4]));
    lemma_cells_ops(ships[0], ships[1]);
    lemma_cells_ops(ships[0] | ships[1], ships[2]);
    lemma_cells_ops(ships[0] | ships[1] | ships[2], ships[3]);
    lemma_cells_ops(ships[0] | ships[1] | ships[2] | ships[3], ships[4]);
}

/// A ship can be placed exactly when none of its cells is the same as, or a
/// neighbour (diagonals included) of, a cell of the player's ships; that is,
/// when every ship cell is at Chebyshev distance two or more from them.
pub proof fn lemma_placement_distance(g: Game, p: Player, ship: u128)
    requires
        g.wf(),
        is_board(ship),
    ensures
        g.placeable(p, ship) <==> forall|a: (int, int), b: (int, int)|
            #![trigger cells(ship).contains(a), cells(g.board(p)).contains(b)]
            cells(ship).contains(a) && cells(g.board(p)).contains(b) ==> !touching(a, b),
{
    let board = g.board(p);
    let ships = g.fleet(p);
    assert(forall|i: int| 0 <= i < 5 ==> is_board(#[trigger] ships[i]));
    lemma_fleet_board(ships);
    lemma_cells_of(neighbourhood(cells(ship)));
    crate::board_api::lemma_surround_covers(ship);
    lemma_and_zero(surround(ship), board);
    let n = neighbourhood(cells(ship));
    if g.placeable(p, ship) {
        assert forall|a: (int, int), b: (int, int)|
            cells(ship).contains(a) && cells(board).contains(b) implies !touching(a, b) by {
            if touching(a, b) {
                assert(n.contains(b));
                assert(cells(surround(ship)).contains(b));
            }
        }
    }
    if forall|a: (int, int), b: (int, int)|
        #![trigger cells(ship).contains(a), cells(board).contains(b)]
        cells(ship).contains(a) && cells(board).contains(b) ==> !touching(a, b) {
        assert forall|b: (int, int)| cells(surround(ship)).contains(b) implies !cells(board).contains(b) by {
            assert(n.contains(b));
            let q = choose|q: (int, int)|
                cells(ship).contains(q) && -1 <= b.0 - q.0 <= 1 && -1 <= b.1 - q.1 <= 1;
            assert(cells(ship).contains(q));
            assert(touching(q, b));
        }
        assert(cells(surround(ship)).disjoint(cells(board)));
    }
}

/// What `x & !r == 0` says, that `r` covers `x`, survives adding to `r`.
proof fn lemma_cover(x: u128, r: u128, y: u128)
    by (bit_vector)
    ensures
        x & !(r | x) == 0,
        x & !r == 0 ==> x & !(r | y) == 0,
        x & !r == 0 ==> x & !(y | r) == 0,
{
}

/// The revealed mask covers the neighbourhood of every sunk layer among the
/// first `n`.
proof fn lemma_revealed_covers(ships: [u128; 5], shots: u128, n: nat, i: int)
    requires
        0 <= i < n <= 5,
        sunk(ships[i], shots),
    ensures
        surround(ships[i]) & !revealed(ships, shots, n) == 0,
    decreases n,
{
    let x = surround(ships[i]);
    if i == n - 1 {
        lemma_cover(x, revealed(ships, shots, (n - 1) as nat), 0);
    } else {
        lemma_revealed_covers(ships, shots, (n - 1) as nat, i);
        lemma_cover(x, revealed(ships, shots, (n - 1) as nat), surround(ships[n - 1]));
    }
}

/// Firing never takes a cell out of the shooter's shots.
pub proof fn lemma_shoot_monotone(g: Game, p: Player, target: u128)
    ensures
        g.shots(p) & !g.shots_after(p, target) == 0,
{
    let s = g.shots(p);
    let r = revealed(g.fleet(opponent(p)), s | target, 5);
    assert(s & !((s | target) | r) == 0) by (bit_vector);
}

/// Once a shot leaves an enemy layer wholly under the shooter's shots, the
/// shots cover that layer and all of its neighbourhood.
pub proof fn lemma_sinking_reveals(g: Game, p: Player, target: u128, i: int)
    requires
        g.wf(),
        0 <= i < 5,
        sunk(g.fleet(opponent(p))[i], g.shots(p) | target),
    ensures
        neighbourhood(cells(g.fleet(opponent(p))[i])).subset_of(cells(g.shots_after(p, target))),
        surround(g.fleet(opponent(p))[i]) & !g.shots_after(p, target) == 0,
        g.fleet(opponent(p))[i] & !g.shots_after(p, target) == 0,
{
    let ships = g.fleet(opponent(p));
    let s = g.shots(p) | target;
    let x = surround(ships[i]);
    lemma_revealed_covers(ships, s, 5, i);
    lemma_cover(x, revealed(ships, s, 5), s);
    let layer = ships[i];
    let rv = revealed(ships, s, 5);
    assert(layer & !(s | rv) == 0) by (bit_vector)
        requires
            layer & !s == 0,
    ;
    let after = g.shots_after(p, target);
    assert(is_board(ships[i]));
    lemma_cells_of(neighbourhood(cells(layer)));
    assert forall|c: (int, int)| neighbourhood(cells(layer)).contains(c) implies #[trigger] cells(
        after,
    ).contains(c) by {
        assert(cells(x).contains(c));
        crate::bits::lemma_bit_and_or_not(x, after, cell_index(c.0, c.1) as u128);
        crate::bits::lemma_bit_and_or_not(0, 0, cell_index(c.0, c.1) as u128);
    }
}

} // verus!

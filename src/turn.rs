//! The engine's per-turn dump and its reconciliation with the game state.

use std::collections::HashMap;

use vstd::prelude::*;

use crate::board::{slot_in, lemma_slot_in_range, without_ship, Board, Cell, CellReport, Position, Structure};
use crate::engine::EngineParseError;
use crate::game::{distinct_players, Dropoff, DropoffId, Game, Player, PlayerId, Ship, ShipId};

verus! {

/// A ship as the engine reports it in a turn.
#[derive(Clone, Copy, Debug, PartialEq, Eq, Hash, Structural)]
pub struct ShipReport {
    pub id: ShipId,
    pub position: Position,
    pub halite: usize,
}

/// A dropoff as the engine reports it in a turn.
#[derive(Clone, Copy, Debug, PartialEq, Eq, Hash, Structural)]
pub struct DropoffReport {
    pub id: DropoffId,
    pub position: Position,
}

/// One player's part of a turn dump.
#[derive(Debug)]
pub struct PlayerReport {
    pub id: PlayerId,
    pub halite: usize,
    pub ships: Vec<ShipReport>,
    pub dropoffs: Vec<DropoffReport>,
}

/// A whole turn dump: the turn number, one part per player, and the cells
/// whose halite changed.
#[derive(Debug)]
pub struct TurnReport {
    pub turn: usize,
    pub players: Vec<PlayerReport>,
    pub cells: Vec<CellReport>,
}

/// The record of a reported ship: a known ship keeps its identity and owner
/// and takes the reported position and halite; an unknown one is new.
pub open spec fn merged_ship(old: Map<usize, Ship>, owner: PlayerId, r: ShipReport) -> Ship {
    if old.contains_key(r.id.0) {
        Ship {
            id: old[r.id.0].id,
            player_id: old[r.id.0].player_id,
            position: r.position,
            halite: r.halite,
        }
    } else {
        Ship { id: r.id, player_id: owner, position: r.position, halite: r.halite }
    }
}

/// `acc` with the ships of `rs` entered one after the other.
pub open spec fn merge_ships(
    old: Map<usize, Ship>,
    acc: Map<usize, Ship>,
    owner: PlayerId,
    rs: Seq<ShipReport>,
) -> Map<usize, Ship>
    decreases rs.len(),
{
    if rs.len() == 0 {
        acc
    } else {
        merge_ships(old, acc, owner, rs.drop_last()).insert(
            rs.last().id.0,
            merged_ship(old, owner, rs.last()),
        )
    }
}

/// The ship map after a turn whose players' parts are `ps`: exactly the
/// reported ships, merged with what was known of them.
pub open spec fn reconciled_ships(old: Map<usize, Ship>, ps: Seq<PlayerReport>) -> Map<
    usize,
    Ship,
>
    decreases ps.len(),
{
    if ps.len() == 0 {
        Map::empty()
    } else {
        merge_ships(old, reconciled_ships(old, ps.drop_last()), ps.last().id, ps.last().ships@)
    }
}

/// The record of a reported dropoff: a known one keeps its identity and
/// owner, an unknown one is new.
pub open spec fn merged_dropoff(old: Map<usize, Dropoff>, owner: PlayerId, r: DropoffReport) -> Dropoff {
    if old.contains_key(r.id.0) {
        Dropoff { id: old[r.id.0].id, player_id: old[r.id.0].player_id, position: r.position }
    } else {
        Dropoff { id: r.id, player_id: owner, position: r.position }
    }
}

pub open spec fn merge_dropoffs(
    old: Map<usize, Dropoff>,
    acc: Map<usize, Dropoff>,
    owner: PlayerId,
    rs: Seq<DropoffReport>,
) -> Map<usize, Dropoff>
    decreases rs.len(),
{
    if rs.len() == 0 {
        acc
    } else {
        merge_dropoffs(old, acc, owner, rs.drop_last()).insert(
            rs.last().id.0,
            merged_dropoff(old, owner, rs.last()),
        )
    }
}

/// The dropoff map after a turn whose players' parts are `ps`.
pub open spec fn reconciled_dropoffs(old: Map<usize, Dropoff>, ps: Seq<PlayerReport>) -> Map<
    usize,
    Dropoff,
>
    decreases ps.len(),
{
    if ps.len() == 0 {
        Map::empty()
    } else {
        merge_dropoffs(
            old,
            reconciled_dropoffs(old, ps.drop_last()),
            ps.last().id,
            ps.last().dropoffs@,
        )
    }
}

/// Whether some player's part of the dump lists ship `id`.
pub open spec fn lists_ship(ps: Seq<PlayerReport>, id: usize) -> bool {
    exists|j: int, k: int|
        0 <= j < ps.len() && 0 <= k < ps[j].ships@.len() && (#[trigger] ps[j].ships@[k]).id.0
            == id
}

pub open spec fn ship_ids_of(rs: Seq<ShipReport>) -> Seq<ShipId> {
    rs.map_values(|r: ShipReport| r.id)
}

pub open spec fn dropoff_ids_of(rs: Seq<DropoffReport>) -> Seq<DropoffId> {
    rs.map_values(|r: DropoffReport| r.id)
}

/// Whether the dump lists the known players in the order in which the
/// game's start listed them, the order in which the engine emits them.
pub open spec fn players_match(players: Seq<Player>, ps: Seq<PlayerReport>) -> bool {
    &&& players.len() == ps.len()
    &&& forall|i: int| 0 <= i < ps.len() ==> #[trigger] ps[i].id == players[i].id
}

proof fn lemma_merge_ships(
    old: Map<usize, Ship>,
    acc: Map<usize, Ship>,
    owner: PlayerId,
    rs: Seq<ShipReport>,
    id: usize,
)
    ensures
        (exists|k: int| 0 <= k < rs.len() && (#[trigger] rs[k]).id.0 == id) ==> {
            &&& merge_ships(old, acc, owner, rs).contains_key(id)
            &&& exists|k: int|
                0 <= k < rs.len() && (#[trigger] rs[k]).id.0 == id && merge_ships(old, acc, owner, rs)[id]
                    == merged_ship(old, owner, rs[k])
        },
        !(exists|k: int| 0 <= k < rs.len() && (#[trigger] rs[k]).id.0 == id) ==> {
            &&& merge_ships(old, acc, owner, rs).contains_key(id) == acc.contains_key(id)
            &&& merge_ships(old, acc, owner, rs)[id] == acc[id]
        },
    decreases rs.len(),
{
    if rs.len() > 0 {
        let pre = rs.drop_last();
        let n = rs.len() - 1;
        lemma_merge_ships(old, acc, owner, pre, id);
        if rs[n].id.0 == id {
        } else {
            if exists|k: int| 0 <= k < rs.len() && (#[trigger] rs[k]).id.0 == id {
                let k = choose|k: int| 0 <= k < rs.len() && (#[trigger] rs[k]).id.0 == id;
                assert(pre[k] == rs[k]);
                let k2 = choose|k2: int|
                    0 <= k2 < pre.len() && (#[trigger] pre[k2]).id.0 == id && merge_ships(
                        old,
                        acc,
                        owner,
                        pre,
                    )[id] == merged_ship(old, owner, pre[k2]);
                assert(pre[k2] == rs[k2]);
            } else {
                assert forall|k: int| 0 <= k < pre.len() implies (#[trigger] pre[k]).id.0 != id by {
                    assert(pre[k] == rs[k]);
                }
            }
        }
    }
}

/// What is known of ship `id` after the turn: it is kept exactly when some
/// player's part lists it, and then it is the merge of one such listing.
pub proof fn lemma_reconciled_ships(old: Map<usize, Ship>, ps: Seq<PlayerReport>, id: usize)
    ensures
        reconciled_ships(old, ps).contains_key(id) <==> lists_ship(ps, id),
        reconciled_ships(old, ps).contains_key(id) ==> exists|j: int, k: int|
            0 <= j < ps.len() && 0 <= k < ps[j].ships@.len() && (#[trigger] ps[j].ships@[k]).id.0
                == id && reconciled_ships(old, ps)[id] == merged_ship(
                old,
                ps[j].id,
                ps[j].ships@[k],
            ),
    decreases ps.len(),
{
    if ps.len() > 0 {
        let pre = ps.drop_last();
        let last = ps.last();
        lemma_reconciled_ships(old, pre, id);
        lemma_merge_ships(old, reconciled_ships(old, pre), last.id, last.ships@, id);
        let j = ps.len() - 1;
        assert(ps[j] == last);
        if lists_ship(pre, id) {
            let (j0, k0) = choose|j0: int, k0: int|
                0 <= j0 < pre.len() && 0 <= k0 < pre[j0].ships@.len() && (#[trigger] pre[j0].ships@[k0]).id.0
                    == id;
            assert(ps[j0] == pre[j0]);
        }
        if exists|k: int| 0 <= k < last.ships@.len() && (#[trigger] last.ships@[k]).id.0 == id {
            let k = choose|k: int| 0 <= k < last.ships@.len() && (#[trigger] last.ships@[k]).id.0 == id;
            assert(ps[j].ships@[k].id.0 == id);
        }
        if lists_ship(ps, id) {
            let (j0, k0) = choose|j0: int, k0: int|
                0 <= j0 < ps.len() && 0 <= k0 < ps[j0].ships@.len() && (#[trigger] ps[j0].ships@[k0]).id.0
                    == id;
            if j0 < j {
                assert(pre[j0] == ps[j0]);
                assert(pre[j0].ships@[k0].id.0 == id);
                assert(lists_ship(pre, id));
            } else {
                assert(last.ships@[k0].id.0 == id);
            }
        }
        let r = reconciled_ships(old, ps);
        if r.contains_key(id) {
            if exists|k: int| 0 <= k < last.ships@.len() && (#[trigger] last.ships@[k]).id.0 == id
                && r[id] == merged_ship(old, last.id, last.ships@[k]) {
                let k = choose|k: int|
                    0 <= k < last.ships@.len() && (#[trigger] last.ships@[k]).id.0 == id && r[id]
                        == merged_ship(old, last.id, last.ships@[k]);
                assert(ps[j].ships@[k] == last.ships@[k]);
            } else {
                let (j0, k0) = choose|j0: int, k0: int|
                    0 <= j0 < pre.len() && 0 <= k0 < pre[j0].ships@.len() && (#[trigger] pre[j0].ships@[k0]).id.0
                        == id && reconciled_ships(old, pre)[id] == merged_ship(
                        old,
                        pre[j0].id,
                        pre[j0].ships@[k0],
                    );
                assert(ps[j0] == pre[j0]);
            }
        }
    }
}

} // verus!

verus! {

proof fn lemma_merge_ships_keyed(
    old: Map<usize, Ship>,
    acc: Map<usize, Ship>,
    owner: PlayerId,
    rs: Seq<ShipReport>,
)
    requires
        forall|k: usize| #[trigger] old.contains_key(k) ==> old[k].id.0 == k,
        forall|k: usize| #[trigger] acc.contains_key(k) ==> acc[k].id.0 == k,
    ensures
        forall|k: usize| #[trigger]
            merge_ships(old, acc, owner, rs).contains_key(k) ==> merge_ships(
                old,
                acc,
                owner,
                rs,
            )[k].id.0 == k,
    decreases rs.len(),
{
    if rs.len() > 0 {
        lemma_merge_ships_keyed(old, acc, owner, rs.drop_last());
        let l = rs.last();
        if old.contains_key(l.id.0) {
            assert(old[l.id.0].id.0 == l.id.0);
        }
        assert(merged_ship(old, owner, l).id.0 == l.id.0);
        let pre = merge_ships(old, acc, owner, rs.drop_last());
        assert(merge_ships(old, acc, owner, rs) == pre.insert(l.id.0, merged_ship(old, owner, l)));
        assert forall|k: usize| #[trigger]
            merge_ships(old, acc, owner, rs).contains_key(k) implies merge_ships(
                old,
                acc,
                owner,
                rs,
            )[k].id.0 == k by {
            if k != l.id.0 {
                assert(pre.contains_key(k));
            }
        }
    }
}

proof fn lemma_reconciled_ships_keyed(old: Map<usize, Ship>, ps: Seq<PlayerReport>)
    requires
        forall|k: usize| #[trigger] old.contains_key(k) ==> old[k].id.0 == k,
    ensures
        forall|k: usize| #[trigger]
            reconciled_ships(old, ps).contains_key(k) ==> reconciled_ships(old, ps)[k].id.0 == k,
    decreases ps.len(),
{
    if ps.len() > 0 {
        lemma_reconciled_ships_keyed(old, ps.drop_last());
        lemma_merge_ships_keyed(
            old,
            reconciled_ships(old, ps.drop_last()),
            ps.last().id,
            ps.last().ships@,
        );
    }
}

proof fn lemma_merge_dropoffs_keyed(
    old: Map<usize, Dropoff>,
    acc: Map<usize, Dropoff>,
    owner: PlayerId,
    rs: Seq<DropoffReport>,
)
    requires
        forall|k: usize| #[trigger] old.contains_key(k) ==> old[k].id.0 == k,
        forall|k: usize| #[trigger] acc.contains_key(k) ==> acc[k].id.0 == k,
    ensures
        forall|k: usize| #[trigger]
            merge_dropoffs(old, acc, owner, rs).contains_key(k) ==> merge_dropoffs(
                old,
                acc,
                owner,
                rs,
            )[k].id.0 == k,
    decreases rs.len(),
{
    if rs.len() > 0 {
        lemma_merge_dropoffs_keyed(old, acc, owner, rs.drop_last());
        let l = rs.last();
        if old.contains_key(l.id.0) {
            assert(old[l.id.0].id.0 == l.id.0);
        }
        assert(merged_dropoff(old, owner, l).id.0 == l.id.0);
        let pre = merge_dropoffs(old, acc, owner, rs.drop_last());
        assert(merge_dropoffs(old, acc, owner, rs) == pre.insert(l.id.0, merged_dropoff(old, owner, l)));
        assert forall|k: usize| #[trigger]
            merge_dropoffs(old, acc, owner, rs).contains_key(k) implies merge_dropoffs(
                old,
                acc,
                owner,
                rs,
            )[k].id.0 == k by {
            if k != l.id.0 {
                assert(pre.contains_key(k));
            }
        }
    }
}

proof fn lemma_reconciled_dropoffs_keyed(old: Map<usize, Dropoff>, ps: Seq<PlayerReport>)
    requires
        forall|k: usize| #[trigger] old.contains_key(k) ==> old[k].id.0 == k,
    ensures
        forall|k: usize| #[trigger]
            reconciled_dropoffs(old, ps).contains_key(k) ==> reconciled_dropoffs(old, ps)[k].id.0
                == k,
    decreases ps.len(),
{
    if ps.len() > 0 {
        lemma_reconciled_dropoffs_keyed(old, ps.drop_last());
        lemma_merge_dropoffs_keyed(
            old,
            reconciled_dropoffs(old, ps.drop_last()),
            ps.last().id,
            ps.last().dropoffs@,
        );
    }
}

/// The ship map after a turn: the reported ships, each merged with what
/// `old` knew of it.
fn reconcile_ships(old: &HashMap<usize, Ship>, players: &Vec<PlayerReport>) -> (r: HashMap<
    usize,
    Ship,
>)
    ensures
        r@ == reconciled_ships(old@, players@),
{
    let mut r: HashMap<usize, Ship> = HashMap::new();
    let mut j: usize = 0;
    while j < players.len()
        invariant
            0 <= j <= players@.len(),
            r@ == reconciled_ships(old@, players@.take(j as int)),
        decreases players@.len() - j,
    {
        let pr = &players[j];
        let ghost before = r@;
        let mut k: usize = 0;
        while k < pr.ships.len()
            invariant
                0 <= j < players@.len(),
                *pr == players@[j as int],
                0 <= k <= pr.ships@.len(),
                before == reconciled_ships(old@, players@.take(j as int)),
                r@ == merge_ships(old@, before, pr.id, pr.ships@.take(k as int)),
            decreases pr.ships@.len() - k,
        {
            let sr = pr.ships[k];
            let ship = match old.get(&sr.id.0) {
                Some(s) => Ship { id: s.id, player_id: s.player_id, position: sr.position, halite: sr.halite },
                None => Ship::new(sr.id, pr.id, sr.position, sr.halite),
            };
            r.insert(sr.id.0, ship);
            proof {
                assert(pr.ships@.take(k + 1).drop_last() =~= pr.ships@.take(k as int));
            }
            k = k + 1;
        }
        proof {
            assert(pr.ships@.take(k as int) =~= pr.ships@);
            assert(players@.take(j + 1).drop_last() =~= players@.take(j as int));
        }
        j = j + 1;
    }
    assert(players@.take(players@.len() as int) =~= players@);
    r
}

/// The dropoff map after a turn: the reported dropoffs, each merged with
/// what `old` knew of it.
fn reconcile_dropoffs(old: &HashMap<usize, Dropoff>, players: &Vec<PlayerReport>) -> (r: HashMap<
    usize,
    Dropoff,
>)
    ensures
        r@ == reconciled_dropoffs(old@, players@),
{
    let mut r: HashMap<usize, Dropoff> = HashMap::new();
    let mut j: usize = 0;
    while j < players.len()
        invariant
            0 <= j <= players@.len(),
            r@ == reconciled_dropoffs(old@, players@.take(j as int)),
        decreases players@.len() - j,
    {
        let pr = &players[j];
        let ghost before = r@;
        let mut k: usize = 0;
        while k < pr.dropoffs.len()
            invariant
                0 <= j < players@.len(),
                *pr == players@[j as int],
                0 <= k <= pr.dropoffs@.len(),
                before == reconciled_dropoffs(old@, players@.take(j as int)),
                r@ == merge_dropoffs(old@, before, pr.id, pr.dropoffs@.take(k as int)),
            decreases pr.dropoffs@.len() - k,
        {
            let dr = pr.dropoffs[k];
            let dropoff = match old.get(&dr.id.0) {
                Some(d) => Dropoff { id: d.id, player_id: d.player_id, position: dr.position },
                None => Dropoff::new(dr.id, pr.id, dr.position),
            };
            r.insert(dr.id.0, dropoff);
            proof {
                assert(pr.dropoffs@.take(k + 1).drop_last() =~= pr.dropoffs@.take(k as int));
            }
            k = k + 1;
        }
        proof {
            assert(pr.dropoffs@.take(k as int) =~= pr.dropoffs@);
            assert(players@.take(j + 1).drop_last() =~= players@.take(j as int));
        }
        j = j + 1;
    }
    assert(players@.take(players@.len() as int) =~= players@);
    r
}

fn ship_ids(rs: &Vec<ShipReport>) -> (r: Vec<ShipId>)
    ensures
        r@ == ship_ids_of(rs@),
{
    let mut r: Vec<ShipId> = Vec::new();
    let mut k: usize = 0;
    while k < rs.len()
        invariant
            0 <= k <= rs@.len(),
            r@ == ship_ids_of(rs@.take(k as int)),
        decreases rs@.len() - k,
    {
        r.push(rs[k].id);
        proof {
            assert(ship_ids_of(rs@.take(k + 1)) =~= ship_ids_of(rs@.take(k as int)).push(rs@[k as int].id));
        }
        k = k + 1;
    }
    assert(rs@.take(rs@.len() as int) =~= rs@);
    r
}

fn dropoff_ids(rs: &Vec<DropoffReport>) -> (r: Vec<DropoffId>)
    ensures
        r@ == dropoff_ids_of(rs@),
{
    let mut r: Vec<DropoffId> = Vec::new();
    let mut k: usize = 0;
    while k < rs.len()
        invariant
            0 <= k <= rs@.len(),
            r@ == dropoff_ids_of(rs@.take(k as int)),
        decreases rs@.len() - k,
    {
        r.push(rs[k].id);
        proof {
            assert(dropoff_ids_of(rs@.take(k + 1)) =~= dropoff_ids_of(rs@.take(k as int)).push(rs@[k as int].id));
        }
        k = k + 1;
    }
    assert(rs@.take(rs@.len() as int) =~= rs@);
    r
}

} // verus!

verus! {

/// What a turn dump `r` makes of the game `old` when taken in: `new`.
pub open spec fn turn_applied(old: Game, r: TurnReport, new: Game) -> bool {
    &&& new.my_id == old.my_id
    &&& new.turn == r.turn
    &&& new.commands@.len() == 0
    &&& new.ships@ == reconciled_ships(old.ships@, r.players@)
    &&& new.dropoffs@ == reconciled_dropoffs(old.dropoffs@, r.players@)
    &&& players_match(old.players@, r.players@)
    &&& new.players@.len() == old.players@.len()
    &&& forall|i: int|
        0 <= i < new.players@.len() ==> {
            &&& (#[trigger] new.players@[i]).id == old.players@[i].id
            &&& new.players@[i].shipyard == old.players@[i].shipyard
            &&& new.players@[i].halite == r.players@[i].halite
            &&& new.players@[i].ship_ids@ == ship_ids_of(r.players@[i].ships@)
            &&& new.players@[i].dropoff_ids@ == dropoff_ids_of(r.players@[i].dropoffs@)
        }
    &&& new.board.width == old.board.width
    &&& new.board.height == old.board.height
    &&& new.board.cells@.len() == old.board.cells@.len()
    &&& forall|k: int|
        0 <= k < new.board.cells@.len() ==> {
            &&& (#[trigger] new.board.cells@[k]).halite == old.board.halite_updated(
                r.cells@,
            )[k].halite
            &&& new.board.cells@[k].position == old.board.cells@[k].position
        }
    &&& ship_ids_known(new)
    &&& ship_refs_placed(new)
    &&& yards_held(new, new.players@.len() as int)
    &&& ships_held(new, new.players@.len() as int, 0)
    &&& dropoffs_held(new, new.players@.len() as int, 0)
    &&& structures_kept(new, old.board.cells@)
    &&& structures_apart(new) ==> yards_exact(new, new.players@.len() as int) && dropoffs_exact(
        new,
        new.players@.len() as int,
        0,
    )
}

proof fn lemma_halite_updated_positions(b: Board, rs: Seq<CellReport>)
    requires
        b.wf(),
    ensures
        b.halite_updated(rs).len() == b.cells@.len(),
        forall|k: int|
            0 <= k < b.cells@.len() ==> (#[trigger] b.halite_updated(rs)[k]).position
                == b.cells@[k].position,
    decreases rs.len(),
{
    if rs.len() > 0 {
        lemma_halite_updated_positions(b, rs.drop_last());
        lemma_slot_in_range(b, rs.last().position);
    }
}

/// Every ship that a player lists is in the ship map.
pub open spec fn ship_ids_known(g: Game) -> bool {
    forall|j: int, q: int|
        0 <= j < g.players@.len() && 0 <= q < g.players@[j].ship_ids@.len() ==> g.ships@.contains_key(
            (#[trigger] g.players@[j].ship_ids@[q]).0,
        )
}

/// Every ship that a cell holds is in the ship map, at a position of that
/// cell.
pub open spec fn ship_refs_placed(g: Game) -> bool {
    forall|k: int|
        0 <= k < g.board.cells@.len() && (#[trigger] g.board.cells@[k]).ship is Some ==> {
            let id = (g.board.cells@[k].ship->0).0;
            &&& g.ships@.contains_key(id)
            &&& g.board.slot(g.ships@[id].position) == k
        }
}

/// The shipyards of the players before `bound` stand on cells with a
/// structure.
pub open spec fn yards_held(g: Game, bound: int) -> bool {
    forall|j: int|
        0 <= j < bound && j < g.players@.len() ==> (#[trigger] g.board.cell_at(
            g.players@[j].shipyard.position,
        )).structure is Some
}

/// The ships listed by the players before `bi`, and the first `bq` of
/// player `bi`, stand on cells that hold a ship.
pub open spec fn ships_held(g: Game, bi: int, bq: int) -> bool {
    forall|j: int, q: int|
        0 <= j < g.players@.len() && 0 <= q < g.players@[j].ship_ids@.len() && (j < bi || (j == bi
            && q < bq)) && g.ships@.contains_key((#[trigger] g.players@[j].ship_ids@[q]).0)
            ==> g.board.cell_at(g.ships@[g.players@[j].ship_ids@[q].0].position).ship is Some
}

/// The known dropoffs listed by the players before `bi`, and among the first
/// `bq` of player `bi`, stand on cells with a structure.
pub open spec fn dropoffs_held(g: Game, bi: int, bq: int) -> bool {
    forall|j: int, q: int|
        0 <= j < g.players@.len() && 0 <= q < g.players@[j].dropoff_ids@.len() && (j < bi || (j
            == bi && q < bq)) && g.dropoffs@.contains_key(
            (#[trigger] g.players@[j].dropoff_ids@[q]).0,
        ) ==> g.board.cell_at(g.dropoffs@[g.players@[j].dropoff_ids@[q].0].position).structure is Some
}

/// Index of the cell of player `j`'s shipyard.
pub open spec fn yard_slot(g: Game, j: int) -> int {
    yard_slot_in(g.players@, g.board.width, g.board.height, j)
}

pub open spec fn yard_slot_in(ps: Seq<Player>, w: isize, h: isize, j: int) -> int {
    slot_in(w, h, ps[j].shipyard.position)
}

/// Whether player `j` lists, as its `q`-th, a dropoff of the map.
pub open spec fn listed_dropoff(g: Game, j: int, q: int) -> bool {
    listed_in(g.players@, g.dropoffs@, j, q)
}

pub open spec fn listed_in(ps: Seq<Player>, ds: Map<usize, Dropoff>, j: int, q: int) -> bool {
    &&& 0 <= j < ps.len()
    &&& 0 <= q < ps[j].dropoff_ids@.len()
    &&& ds.contains_key(ps[j].dropoff_ids@[q].0)
}

/// Index of the cell of the `q`-th dropoff player `j` lists.
pub open spec fn dropoff_slot(g: Game, j: int, q: int) -> int {
    dropoff_slot_in(g.players@, g.dropoffs@, g.board.width, g.board.height, j, q)
}

pub open spec fn dropoff_slot_in(ps: Seq<Player>, ds: Map<usize, Dropoff>, w: isize, h: isize, j: int, q: int) -> int {
    slot_in(w, h, ds[ps[j].dropoff_ids@[q].0].position)
}

/// Whether a shipyard or a listed dropoff stands on cell `k`.
pub open spec fn stamp_slot(g: Game, k: int) -> bool {
    stamp_slot_in(g.players@, g.dropoffs@, g.board.width, g.board.height, k)
}

pub open spec fn stamp_slot_in(ps: Seq<Player>, ds: Map<usize, Dropoff>, w: isize, h: isize, k: int) -> bool {
    ||| exists|j: int| 0 <= j < ps.len() && #[trigger] yard_slot_in(ps, w, h, j) == k
    ||| exists|j: int, q: int| listed_in(ps, ds, j, q) && #[trigger] dropoff_slot_in(ps, ds, w, h, j, q) == k
}

/// No two structures share a cell: shipyards stand apart from each other
/// and from the dropoffs, and a cell holds at most one dropoff.
pub open spec fn structures_apart(g: Game) -> bool {
    apart_in(g.players@, g.dropoffs@, g.board.width, g.board.height)
}

pub open spec fn apart_in(ps: Seq<Player>, ds: Map<usize, Dropoff>, w: isize, h: isize) -> bool {
    &&& forall|j1: int, j2: int|
        0 <= j1 < j2 < ps.len() ==> #[trigger] yard_slot_in(ps, w, h, j1) != #[trigger] yard_slot_in(ps, w, h, j2)
    &&& forall|j: int, j2: int, q: int|
        0 <= j < ps.len() && listed_in(ps, ds, j2, q) ==> #[trigger] dropoff_slot_in(ps, ds, w, h, j2, q)
            != #[trigger] yard_slot_in(ps, w, h, j)
    &&& forall|j1: int, q1: int, j2: int, q2: int|
        listed_in(ps, ds, j1, q1) && listed_in(ps, ds, j2, q2) && #[trigger] dropoff_slot_in(ps, ds, w, h, j1, q1)
            == #[trigger] dropoff_slot_in(ps, ds, w, h, j2, q2) ==> ps[j1].dropoff_ids@[q1]
            == ps[j2].dropoff_ids@[q2]
}

/// The shipyards of the players before `bound` stand marked on their cells.
pub open spec fn yards_exact(g: Game, bound: int) -> bool {
    forall|j: int|
        0 <= j < bound && j < g.players@.len() ==> (#[trigger] g.board.cells@[yard_slot(g, j)]).structure
            == Some(Structure::Shipyard(g.players@[j].shipyard.id))
}

/// The listed dropoffs of the players before `bi`, and the first `bq` of
/// player `bi`, stand marked on their cells.
pub open spec fn dropoffs_exact(g: Game, bi: int, bq: int) -> bool {
    forall|j: int, q: int|
        listed_dropoff(g, j, q) && (j < bi || (j == bi && q < bq)) ==> (#[trigger] g.board.cells@[dropoff_slot(g, j, q)]).structure
            == Some(Structure::Dropoff(g.players@[j].dropoff_ids@[q]))
}

/// Every cell on which no shipyard and no listed dropoff stands keeps its
/// structure from `orig`.
pub open spec fn structures_kept(g: Game, orig: Seq<Cell>) -> bool {
    forall|k: int|
        0 <= k < g.board.cells@.len() && !stamp_slot(g, k) ==> (#[trigger] g.board.cells@[k]).structure
            == orig[k].structure
}

/// Writing a cell without changing its structure keeps what is known of the
/// structures.
proof fn lemma_structures_same(prev: Game, next: Game, k0: int, c: Cell, orig: Seq<Cell>, bi: int, bj: int, bq: int)
    requires
        prev.board.wf(),
        next.board.width == prev.board.width,
        next.board.height == prev.board.height,
        next.players == prev.players,
        next.dropoffs == prev.dropoffs,
        0 <= k0 < prev.board.cells@.len(),
        next.board.cells@ == prev.board.cells@.update(k0, c),
        c.structure == prev.board.cells@[k0].structure,
        structures_kept(prev, orig),
        structures_apart(prev) ==> yards_exact(prev, bi) && dropoffs_exact(prev, bj, bq),
    ensures
        structures_kept(next, orig),
        structures_apart(next) ==> yards_exact(next, bi) && dropoffs_exact(next, bj, bq),
{
    assert forall|k: int| 0 <= k < next.board.cells@.len() implies (#[trigger] next.board.cells@[k]).structure == prev.board.cells@[k].structure by {}
    if structures_apart(next) {
        assert forall|j: int| 0 <= j < bi && j < next.players@.len() implies (#[trigger] next.board.cells@[yard_slot(next, j)]).structure
            == Some(Structure::Shipyard(next.players@[j].shipyard.id)) by {
            lemma_slot_in_range(prev.board, prev.players@[j].shipyard.position);
            assert(prev.board.cells@[yard_slot(prev, j)].structure == Some(Structure::Shipyard(prev.players@[j].shipyard.id)));
        }
        assert forall|j: int, q: int| listed_dropoff(next, j, q) && (j < bj || (j == bj && q < bq)) implies (#[trigger] next.board.cells@[dropoff_slot(next, j, q)]).structure
            == Some(Structure::Dropoff(next.players@[j].dropoff_ids@[q])) by {
            lemma_slot_in_range(prev.board, prev.dropoffs@[prev.players@[j].dropoff_ids@[q].0].position);
            assert(listed_dropoff(prev, j, q));
            assert(prev.board.cells@[dropoff_slot(prev, j, q)].structure == Some(Structure::Dropoff(prev.players@[j].dropoff_ids@[q])));
        }
    }
}

/// Marking player `i`'s shipyard.
proof fn lemma_yard_stamp(prev: Game, next: Game, i: int, c: Cell, orig: Seq<Cell>)
    requires
        prev.board.wf(),
        next.board.width == prev.board.width,
        next.board.height == prev.board.height,
        next.players == prev.players,
        next.dropoffs == prev.dropoffs,
        0 <= i < prev.players@.len(),
        0 <= yard_slot(prev, i) < prev.board.cells@.len(),
        next.board.cells@ == prev.board.cells@.update(yard_slot(prev, i), c),
        c.structure == Some(Structure::Shipyard(prev.players@[i].shipyard.id)),
        structures_kept(prev, orig),
        structures_apart(prev) ==> yards_exact(prev, i) && dropoffs_exact(prev, i, 0),
    ensures
        structures_kept(next, orig),
        structures_apart(next) ==> yards_exact(next, i + 1) && dropoffs_exact(next, i, 0),
{
    let k0 = yard_slot(prev, i);
    assert forall|k: int| 0 <= k < next.board.cells@.len() && !stamp_slot(next, k) implies (#[trigger] next.board.cells@[k]).structure
        == orig[k].structure by {
        if k == k0 {
            assert(yard_slot(next, i) == k);
        }
    }
    if structures_apart(next) {
        assert forall|j: int| 0 <= j < i + 1 && j < next.players@.len() implies (#[trigger] next.board.cells@[yard_slot(next, j)]).structure
            == Some(Structure::Shipyard(next.players@[j].shipyard.id)) by {
            lemma_slot_in_range(prev.board, prev.players@[j].shipyard.position);
            assert(structures_apart(prev));
            if j < i {
                assert(yard_slot(next, j) != yard_slot(next, i));
                assert(prev.board.cells@[yard_slot(prev, j)].structure == Some(Structure::Shipyard(prev.players@[j].shipyard.id)));
            }
        }
        assert forall|j: int, q: int| listed_dropoff(next, j, q) && (j < i || (j == i && q < 0)) implies (#[trigger] next.board.cells@[dropoff_slot(next, j, q)]).structure
            == Some(Structure::Dropoff(next.players@[j].dropoff_ids@[q])) by {
            lemma_slot_in_range(prev.board, prev.dropoffs@[prev.players@[j].dropoff_ids@[q].0].position);
            assert(structures_apart(prev));
            assert(dropoff_slot(next, j, q) != yard_slot(next, i));
            assert(listed_dropoff(prev, j, q));
            assert(prev.board.cells@[dropoff_slot(prev, j, q)].structure == Some(Structure::Dropoff(prev.players@[j].dropoff_ids@[q])));
        }
    }
}

/// Marking the `q`-th dropoff that player `i` lists.
proof fn lemma_dropoff_stamp(prev: Game, next: Game, i: int, q: int, c: Cell, orig: Seq<Cell>)
    requires
        prev.board.wf(),
        next.board.width == prev.board.width,
        next.board.height == prev.board.height,
        next.players == prev.players,
        next.dropoffs == prev.dropoffs,
        listed_dropoff(prev, i, q),
        0 <= dropoff_slot(prev, i, q) < prev.board.cells@.len(),
        next.board.cells@ == prev.board.cells@.update(dropoff_slot(prev, i, q), c),
        c.structure == Some(Structure::Dropoff(prev.players@[i].dropoff_ids@[q])),
        structures_kept(prev, orig),
        structures_apart(prev) ==> yards_exact(prev, i + 1) && dropoffs_exact(prev, i, q),
    ensures
        structures_kept(next, orig),
        structures_apart(next) ==> yards_exact(next, i + 1) && dropoffs_exact(next, i, q + 1),
{
    let k0 = dropoff_slot(prev, i, q);
    assert forall|k: int| 0 <= k < next.board.cells@.len() && !stamp_slot(next, k) implies (#[trigger] next.board.cells@[k]).structure
        == orig[k].structure by {
        if k == k0 {
            assert(listed_dropoff(next, i, q) && dropoff_slot(next, i, q) == k);
        }
    }
    if structures_apart(next) {
        assert forall|j: int| 0 <= j < i + 1 && j < next.players@.len() implies (#[trigger] next.board.cells@[yard_slot(next, j)]).structure
            == Some(Structure::Shipyard(next.players@[j].shipyard.id)) by {
            lemma_slot_in_range(prev.board, prev.players@[j].shipyard.position);
            assert(structures_apart(prev));
            assert(listed_dropoff(next, i, q));
            assert(dropoff_slot(next, i, q) != yard_slot(next, j));
            assert(prev.board.cells@[yard_slot(prev, j)].structure == Some(Structure::Shipyard(prev.players@[j].shipyard.id)));
        }
        assert forall|j: int, q2: int| listed_dropoff(next, j, q2) && (j < i || (j == i && q2 < q + 1)) implies (#[trigger] next.board.cells@[dropoff_slot(next, j, q2)]).structure
            == Some(Structure::Dropoff(next.players@[j].dropoff_ids@[q2])) by {
            lemma_slot_in_range(prev.board, prev.dropoffs@[prev.players@[j].dropoff_ids@[q2].0].position);
            assert(listed_dropoff(prev, j, q2));
            assert(listed_dropoff(next, i, q));
            assert(structures_apart(prev));
            if dropoff_slot(next, j, q2) == dropoff_slot(next, i, q) {
                assert(next.players@[j].dropoff_ids@[q2] == next.players@[i].dropoff_ids@[q]);
            } else if j < i || q2 < q {
                assert(prev.board.cells@[dropoff_slot(prev, j, q2)].structure == Some(Structure::Dropoff(prev.players@[j].dropoff_ids@[q2])));
            }
        }
    }
}

proof fn lemma_cell_at_update(prev: Board, next: Board, k: int, c: Cell)
    requires
        prev.wf(),
        next.width == prev.width,
        next.height == prev.height,
        0 <= k < prev.cells@.len(),
        next.cells@ == prev.cells@.update(k, c),
    ensures
        forall|p: Position|
            #[trigger] next.cell_at(p) == if prev.slot(p) == k {
                c
            } else {
                prev.cell_at(p)
            },
{
    assert forall|p: Position| #[trigger]
        next.cell_at(p) == if prev.slot(p) == k {
            c
        } else {
            prev.cell_at(p)
        } by {
        lemma_slot_in_range(prev, p);
    }
}

/// Writing a cell that keeps its ship and structure, if it had them, keeps
/// what the stamping has established so far.
proof fn lemma_stamp_keeps(prev: Game, next: Game, k: int, c: Cell, bi: int, bq: int)
    requires
        prev.board.wf(),
        next.board.width == prev.board.width,
        next.board.height == prev.board.height,
        next.players == prev.players,
        next.ships == prev.ships,
        next.dropoffs == prev.dropoffs,
        0 <= k < prev.board.cells@.len(),
        next.board.cells@ == prev.board.cells@.update(k, c),
        prev.board.cells@[k].ship is Some ==> c.ship is Some,
        prev.board.cells@[k].structure is Some ==> c.structure is Some,
        c.ship is Some && c.ship != prev.board.cells@[k].ship ==> prev.ships@.contains_key(
            (c.ship->0).0,
        ) && prev.board.slot(prev.ships@[(c.ship->0).0].position) == k,
        ship_refs_placed(prev),
    ensures
        ship_refs_placed(next),
        forall|b: int| yards_held(prev, b) ==> #[trigger] yards_held(next, b),
        forall|b: int, q: int| ships_held(prev, b, q) ==> #[trigger] ships_held(next, b, q),
        forall|b: int, q: int| dropoffs_held(prev, b, q) ==> #[trigger] dropoffs_held(next, b, q),
{
    lemma_cell_at_update(prev.board, next.board, k, c);
}

impl Game {
    /// Set each player's halite and its lists of ships and dropoffs from the
    /// dump's part for it.
    fn update_players(&mut self, reports: &Vec<PlayerReport>)
        requires
            players_match(old(self).players@, reports@),
        ensures
            final(self).my_id == old(self).my_id,
            final(self).board == old(self).board,
            final(self).ships == old(self).ships,
            final(self).dropoffs == old(self).dropoffs,
            final(self).commands == old(self).commands,
            final(self).turn == old(self).turn,
            final(self).players@.len() == old(self).players@.len(),
            forall|i: int|
                0 <= i < final(self).players@.len() ==> {
                    &&& (#[trigger] final(self).players@[i]).id == old(self).players@[i].id
                    &&& final(self).players@[i].shipyard == old(self).players@[i].shipyard
                    &&& final(self).players@[i].halite == reports@[i].halite
                    &&& final(self).players@[i].ship_ids@ == ship_ids_of(reports@[i].ships@)
                    &&& final(self).players@[i].dropoff_ids@ == dropoff_ids_of(
                        reports@[i].dropoffs@,
                    )
                },
    {
        let n = self.players.len();
        let mut i: usize = 0;
        while i < n
            invariant
                n == self.players@.len(),
                n == old(self).players@.len(),
                players_match(old(self).players@, reports@),
                0 <= i <= n,
                self.my_id == old(self).my_id,
                self.board == old(self).board,
                self.ships == old(self).ships,
                self.dropoffs == old(self).dropoffs,
                self.commands == old(self).commands,
                self.turn == old(self).turn,
                forall|j: int| i <= j < n ==> #[trigger] self.players@[j] == old(self).players@[j],
                forall|j: int|
                    0 <= j < i ==> {
                        &&& (#[trigger] self.players@[j]).id == old(self).players@[j].id
                        &&& self.players@[j].shipyard == old(self).players@[j].shipyard
                        &&& self.players@[j].halite == reports@[j].halite
                        &&& self.players@[j].ship_ids@ == ship_ids_of(reports@[j].ships@)
                        &&& self.players@[j].dropoff_ids@ == dropoff_ids_of(reports@[j].dropoffs@)
                    },
            decreases n - i,
        {
            let pr = &reports[i];
            let p = Player {
                id: self.players[i].id,
                shipyard: self.players[i].shipyard,
                ship_ids: ship_ids(&pr.ships),
                dropoff_ids: dropoff_ids(&pr.dropoffs),
                halite: pr.halite,
            };
            self.players.set(i, p);
            i = i + 1;
        }
    }

    /// Put every player's shipyard, ships and dropoffs on the board.
    fn stamp_board(&mut self)
        requires
            old(self).board.wf(),
            forall|k: int|
                0 <= k < old(self).board.cells@.len() ==> (#[trigger] old(self).board.cells@[k]).ship
                    is None,
            ship_ids_known(*old(self)),
        ensures
            final(self).my_id == old(self).my_id,
            final(self).players == old(self).players,
            final(self).ships == old(self).ships,
            final(self).dropoffs == old(self).dropoffs,
            final(self).commands == old(self).commands,
            final(self).turn == old(self).turn,
            final(self).board.wf(),
            final(self).board.width == old(self).board.width,
            final(self).board.height == old(self).board.height,
            final(self).board.cells@.len() == old(self).board.cells@.len(),
            forall|k: int|
                0 <= k < final(self).board.cells@.len() ==> {
                    &&& (#[trigger] final(self).board.cells@[k]).halite
                        == old(self).board.cells@[k].halite
                    &&& final(self).board.cells@[k].position == old(self).board.cells@[k].position
                },
            ship_refs_placed(*final(self)),
            yards_held(*final(self), final(self).players@.len() as int),
            ships_held(*final(self), final(self).players@.len() as int, 0),
            dropoffs_held(*final(self), final(self).players@.len() as int, 0),
            structures_kept(*final(self), old(self).board.cells@),
            structures_apart(*final(self)) ==> yards_exact(*final(self), final(self).players@.len() as int)
                && dropoffs_exact(*final(self), final(self).players@.len() as int, 0),
    {
        let n = self.players.len();
        proof {
            assert(structures_kept(*self, old(self).board.cells@));
        }
        let mut i: usize = 0;
        while i < n
            invariant
                n == self.players@.len(),
                0 <= i <= n,
                self.my_id == old(self).my_id,
                self.players == old(self).players,
                self.ships == old(self).ships,
                self.dropoffs == old(self).dropoffs,
                self.commands == old(self).commands,
                self.turn == old(self).turn,
                ship_ids_known(*self),
                self.board.wf(),
                self.board.width == old(self).board.width,
                self.board.height == old(self).board.height,
                self.board.cells@.len() == old(self).board.cells@.len(),
                forall|k: int|
                    0 <= k < self.board.cells@.len() ==> {
                        &&& (#[trigger] self.board.cells@[k]).halite
                            == old(self).board.cells@[k].halite
                        &&& self.board.cells@[k].position == old(self).board.cells@[k].position
                    },
                ship_refs_placed(*self),
                yards_held(*self, i as int),
                ships_held(*self, i as int, 0),
                dropoffs_held(*self, i as int, 0),
                structures_kept(*self, old(self).board.cells@),
                structures_apart(*self) ==> yards_exact(*self, i as int) && dropoffs_exact(*self, i as int, 0),
            decreases n - i,
        {
            let yard = self.players[i].shipyard;
            let c = *self.board.index(yard.position);
            let ghost prev = *self;
            self.board.set(yard.position, Cell { structure: Some(Structure::Shipyard(yard.id)), ..c });
            proof {
                lemma_stamp_keeps(prev, *self, prev.board.slot(yard.position), self.board.cells@[prev.board.slot(yard.position)], i as int, 0);
                lemma_yard_stamp(prev, *self, i as int, self.board.cells@[prev.board.slot(yard.position)], old(self).board.cells@);
                lemma_cell_at_update(prev.board, self.board, prev.board.slot(yard.position), self.board.cells@[prev.board.slot(yard.position)]);
            }
            let m = self.players[i].ship_ids.len();
            let mut k: usize = 0;
            while k < m
                invariant
                    n == self.players@.len(),
                    0 <= i < n,
                    m == self.players@[i as int].ship_ids@.len(),
                    0 <= k <= m,
                    self.my_id == old(self).my_id,
                    self.players == old(self).players,
                    self.ships == old(self).ships,
                    self.dropoffs == old(self).dropoffs,
                    self.commands == old(self).commands,
                    self.turn == old(self).turn,
                    ship_ids_known(*self),
                    self.board.wf(),
                    self.board.width == old(self).board.width,
                    self.board.height == old(self).board.height,
                    self.board.cells@.len() == old(self).board.cells@.len(),
                    forall|q: int|
                        0 <= q < self.board.cells@.len() ==> {
                            &&& (#[trigger] self.board.cells@[q]).halite
                                == old(self).board.cells@[q].halite
                            &&& self.board.cells@[q].position == old(self).board.cells@[q].position
                        },
                    ship_refs_placed(*self),
                    yards_held(*self, i + 1),
                    ships_held(*self, i as int, k as int),
                    dropoffs_held(*self, i as int, 0),
                    structures_kept(*self, old(self).board.cells@),
                    structures_apart(*self) ==> yards_exact(*self, i + 1) && dropoffs_exact(*self, i as int, 0),
                decreases m - k,
            {
                let sid = self.players[i].ship_ids[k];
                let pos = self.ships.get(&sid.0).unwrap().position;
                let c = *self.board.index(pos);
                let ghost prev = *self;
                self.board.set(pos, Cell { ship: Some(sid), ..c });
                proof {
                    lemma_stamp_keeps(prev, *self, prev.board.slot(pos), self.board.cells@[prev.board.slot(pos)], i as int, k as int);
                    lemma_structures_same(prev, *self, prev.board.slot(pos), self.board.cells@[prev.board.slot(pos)], old(self).board.cells@, i + 1, i as int, 0);
                    lemma_cell_at_update(prev.board, self.board, prev.board.slot(pos), self.board.cells@[prev.board.slot(pos)]);
                }
                k = k + 1;
            }
            let m = self.players[i].dropoff_ids.len();
            let mut k: usize = 0;
            while k < m
                invariant
                    n == self.players@.len(),
                    0 <= i < n,
                    m == self.players@[i as int].dropoff_ids@.len(),
                    0 <= k <= m,
                    self.my_id == old(self).my_id,
                    self.players == old(self).players,
                    self.ships == old(self).ships,
                    self.dropoffs == old(self).dropoffs,
                    self.commands == old(self).commands,
                    self.turn == old(self).turn,
                    ship_ids_known(*self),
                    self.board.wf(),
                    self.board.width == old(self).board.width,
                    self.board.height == old(self).board.height,
                    self.board.cells@.len() == old(self).board.cells@.len(),
                    forall|q: int|
                        0 <= q < self.board.cells@.len() ==> {
                            &&& (#[trigger] self.board.cells@[q]).halite
                                == old(self).board.cells@[q].halite
                            &&& self.board.cells@[q].position == old(self).board.cells@[q].position
                        },
                    ship_refs_placed(*self),
                    yards_held(*self, i + 1),
                    ships_held(*self, i + 1, 0),
                    dropoffs_held(*self, i as int, k as int),
                    structures_kept(*self, old(self).board.cells@),
                    structures_apart(*self) ==> yards_exact(*self, i + 1) && dropoffs_exact(*self, i as int, k as int),
                decreases m - k,
            {
                let did = self.players[i].dropoff_ids[k];
                match self.dropoffs.get(&did.0) {
                    Some(d) => {
                        let pos = d.position;
                        let c = *self.board.index(pos);
                        let ghost prev = *self;
                        self.board.set(pos, Cell { structure: Some(Structure::Dropoff(did)), ..c });
                        proof {
                            lemma_stamp_keeps(prev, *self, prev.board.slot(pos), self.board.cells@[prev.board.slot(pos)], i + 1, 0);
                            lemma_dropoff_stamp(prev, *self, i as int, k as int, self.board.cells@[prev.board.slot(pos)], old(self).board.cells@);
                            lemma_cell_at_update(prev.board, self.board, prev.board.slot(pos), self.board.cells@[prev.board.slot(pos)]);
                        }
                    },
                    None => {},
                }
                k = k + 1;
            }
            i = i + 1;
        }
    }
}

} // verus!

verus! {

proof fn lemma_halite_updated_cleared(b: Board, c: Board, rs: Seq<CellReport>)
    requires
        b.wf(),
        c.width == b.width,
        c.height == b.height,
        c.cells@ == b.cells@.map_values(|x: Cell| without_ship(x)),
    ensures
        c.halite_updated(rs).len() == b.cells@.len(),
        forall|k: int|
            0 <= k < b.cells@.len() ==> {
                &&& (#[trigger] c.halite_updated(rs)[k]).halite == b.halite_updated(rs)[k].halite
                &&& c.halite_updated(rs)[k].position == b.cells@[k].position
                &&& c.halite_updated(rs)[k].ship is None
                &&& c.halite_updated(rs)[k].structure == b.cells@[k].structure
            },
    decreases rs.len(),
{
    lemma_halite_updated_positions(b, rs);
    if rs.len() > 0 {
        lemma_halite_updated_cleared(b, c, rs.drop_last());
        lemma_halite_updated_positions(b, rs.drop_last());
        lemma_slot_in_range(b, rs.last().position);
        assert(c.slot(rs.last().position) == b.slot(rs.last().position));
    } else {
        assert forall|k: int| 0 <= k < b.cells@.len() implies {
            &&& (#[trigger] c.halite_updated(rs)[k]).halite == b.halite_updated(rs)[k].halite
            &&& c.halite_updated(rs)[k].position == b.cells@[k].position
            &&& c.halite_updated(rs)[k].ship is None
            &&& c.halite_updated(rs)[k].structure == b.cells@[k].structure
        } by {
            assert(c.cells@[k] == without_ship(b.cells@[k]));
        }
    }
}

impl Game {
    fn players_match_report(&self, reports: &Vec<PlayerReport>) -> (r: bool)
        ensures
            r == players_match(self.players@, reports@),
    {
        if self.players.len() != reports.len() {
            return false;
        }
        let mut i: usize = 0;
        while i < reports.len()
            invariant
                self.players@.len() == reports@.len(),
                0 <= i <= reports@.len(),
                forall|j: int| 0 <= j < i ==> #[trigger] reports@[j].id == self.players@[j].id,
            decreases reports@.len() - i,
        {
            if reports[i].id != self.players[i].id {
                return false;
            }
            i = i + 1;
        }
        true
    }

    /// Take in a turn dump: the known ships and dropoffs that it lists keep
    /// their records with the reported position (and halite), new ones are
    /// created, the others are dropped; each player's lists follow the dump;
    /// the listed cells take their new halite; and the board's occupancy is
    /// rebuilt from the players' lists. A dump that does not list the known
    /// players in their order is refused and changes nothing.
    pub fn apply_turn(&mut self, report: &TurnReport) -> (r: Result<(), EngineParseError>)
        requires
            old(self).wf(),
        ensures
            r is Err <==> !players_match(old(self).players@, report.players@),
            r is Err ==> r == Err::<(), EngineParseError>(EngineParseError::UnknownPlayer)
                && *final(self) == *old(self),
            r is Ok ==> final(self).wf() && turn_applied(*old(self), *report, *final(self)),
    {
        if !self.players_match_report(&report.players) {
            return Err(EngineParseError::UnknownPlayer);
        }
        let ghost old_game = *self;
        proof {
            lemma_reconciled_ships_keyed(self.ships@, report.players@);
            lemma_reconciled_dropoffs_keyed(self.dropoffs@, report.players@);
        }
        let ships = reconcile_ships(&self.ships, &report.players);
        let dropoffs = reconcile_dropoffs(&self.dropoffs, &report.players);
        self.ships = ships;
        self.dropoffs = dropoffs;
        self.turn = report.turn;
        self.commands = Vec::new();
        self.update_players(&report.players);
        let ghost b0 = self.board;
        self.board.clear_ships();
        let ghost b1 = self.board;
        self.board.update_halite(&report.cells);
        proof {
            lemma_halite_updated_cleared(b0, b1, report.cells@);
            assert forall|j: int, q: int|
                0 <= j < self.players@.len() && 0 <= q < self.players@[j].ship_ids@.len()
                    implies self.ships@.contains_key((#[trigger] self.players@[j].ship_ids@[q]).0) by {
                let id = self.players@[j].ship_ids@[q].0;
                assert(report.players@[j].ships@[q].id.0 == id);
                lemma_reconciled_ships(old_game.ships@, report.players@, id);
            }
        }
        let ghost b2 = self.board;
        self.stamp_board();
        proof {
            assert forall|k: int| 0 <= k < self.board.cells@.len() && !stamp_slot(*self, k) implies (#[trigger] self.board.cells@[k]).structure
                == old_game.board.cells@[k].structure by {
                assert(self.board.cells@[k].structure == b2.cells@[k].structure);
            }
            assert(distinct_players(self.players@));
            assert forall|i: int|
                0 <= i < self.board.cells@.len() && (#[trigger] self.board.cells@[i]).ship is Some implies self.ships@.contains_key(
                (self.board.cells@[i].ship->0).0,
            ) by {}
        }
        Ok(())
    }
}

} // verus!

verus! {

/// A ship that a turn's dump does not list is gone once the dump is taken
/// in: from the ship map, from every player's list of ships, and from every
/// cell of the board.
pub proof fn lemma_unlisted_ship_dropped(old: Game, r: TurnReport, new: Game, id: ShipId)
    requires
        new.wf(),
        new.ships@ == reconciled_ships(old.ships@, r.players@),
        new.players@.len() == r.players@.len(),
        forall|i: int|
            0 <= i < new.players@.len() ==> (#[trigger] new.players@[i]).ship_ids@ == ship_ids_of(
                r.players@[i].ships@,
            ),
        !lists_ship(r.players@, id.0),
    ensures
        !new.ships@.contains_key(id.0),
        forall|i: int, k: int|
            0 <= i < new.players@.len() && 0 <= k < new.players@[i].ship_ids@.len()
                ==> #[trigger] new.players@[i].ship_ids@[k] != id,
        forall|k: int|
            0 <= k < new.board.cells@.len() ==> #[trigger] new.board.cells@[k].ship != Some(id),
{
    lemma_reconciled_ships(old.ships@, r.players@, id.0);
    assert forall|i: int, k: int|
        0 <= i < new.players@.len() && 0 <= k < new.players@[i].ship_ids@.len()
            implies #[trigger] new.players@[i].ship_ids@[k] != id by {
        assert(new.players@[i].ship_ids@ == ship_ids_of(r.players@[i].ships@));
        assert(r.players@[i].ships@[k].id == new.players@[i].ship_ids@[k]);
        if new.players@[i].ship_ids@[k] == id {
            assert(r.players@[i].ships@[k].id.0 == id.0);
        }
    }
    assert forall|k: int| 0 <= k < new.board.cells@.len() implies #[trigger] new.board.cells@[k].ship
        != Some(id) by {
        if new.board.cells@[k].ship == Some(id) {
            assert(new.ships@.contains_key(id.0));
        }
    }
}

/// A ship that was known and that a turn's dump lists keeps its identifier
/// and its owner, and takes the position and halite of a listing of it.
pub proof fn lemma_listed_ship_kept(old: Game, r: TurnReport, new: Game, id: ShipId)
    requires
        old.wf(),
        new.ships@ == reconciled_ships(old.ships@, r.players@),
        old.ships@.contains_key(id.0),
        lists_ship(r.players@, id.0),
    ensures
        new.ships@.contains_key(id.0),
        new.ships@[id.0].id == id,
        new.ships@[id.0].id == old.ships@[id.0].id,
        new.ships@[id.0].player_id == old.ships@[id.0].player_id,
        exists|j: int, k: int|
            0 <= j < r.players@.len() && 0 <= k < r.players@[j].ships@.len() && (#[trigger] r.players@[j].ships@[k]).id
                == id && new.ships@[id.0].position == r.players@[j].ships@[k].position
                && new.ships@[id.0].halite == r.players@[j].ships@[k].halite,
{
    lemma_reconciled_ships(old.ships@, r.players@, id.0);
    let (j, k) = choose|j: int, k: int|
        0 <= j < r.players@.len() && 0 <= k < r.players@[j].ships@.len() && (#[trigger] r.players@[j].ships@[k]).id.0
            == id.0 && reconciled_ships(old.ships@, r.players@)[id.0] == merged_ship(
            old.ships@,
            r.players@[j].id,
            r.players@[j].ships@[k],
        );
    assert(old.ships@[id.0].id.0 == id.0);
    assert(r.players@[j].ships@[k].id == id);
}

} // verus!

verus! {

/// The ship map after a turn depends on each player's part only through its
/// identifier and its list of ships.
pub proof fn lemma_reconciled_ships_congruent(old: Map<usize, Ship>, ps: Seq<PlayerReport>, qs: Seq<PlayerReport>)
    requires
        ps.len() == qs.len(),
        forall|j: int| 0 <= j < ps.len() ==> (#[trigger] ps[j]).id == qs[j].id && ps[j].ships@ == qs[j].ships@,
    ensures
        reconciled_ships(old, ps) == reconciled_ships(old, qs),
    decreases ps.len(),
{
    if ps.len() > 0 {
        assert forall|j: int| 0 <= j < ps.drop_last().len() implies (#[trigger] ps.drop_last()[j]).id == qs.drop_last()[j].id
            && ps.drop_last()[j].ships@ == qs.drop_last()[j].ships@ by {
            assert(ps.drop_last()[j] == ps[j]);
            assert(qs.drop_last()[j] == qs[j]);
        }
        lemma_reconciled_ships_congruent(old, ps.drop_last(), qs.drop_last());
        assert(ps.last() == ps[ps.len() - 1]);
        assert(qs.last() == qs[qs.len() - 1]);
    }
}

} // verus!

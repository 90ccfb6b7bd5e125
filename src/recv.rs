//! Decoding the engine's data: the game at start and each turn's dump.
//! Each decoder consumes, in order, tokens that write exactly the numbers of
//! its result's layout on the wire.

use vstd::prelude::*;

use crate::board::{Board, Cell, CellReport, Position};
use crate::engine::{
    lemma_extended_trans, lemma_took_nothing, lemma_took_trans, lemma_writes_agree, lemma_writes_mid,
    read_error, took, writes, Engine, EngineParseError, LineSource,
};
use crate::engine::{int_token, unsigned_token};
use crate::board::grid_position;
use crate::game::{distinct_players, Dropoff, DropoffId, Game, Player, PlayerId, Ship, ShipId, Shipyard, ShipyardId};
use crate::turn::{
    lemma_reconciled_ships_congruent, reconciled_ships, ship_ids_of, players_match, turn_applied,
};
use crate::turn::{ DropoffReport, PlayerReport, ShipReport, TurnReport};

verus! {

/// The numbers of each item of `s`, one item after the other.
pub open spec fn flat<A>(s: Seq<A>, f: spec_fn(A) -> Seq<int>) -> Seq<int>
    decreases s.len(),
{
    if s.len() == 0 {
        Seq::empty()
    } else {
        flat(s.drop_last(), f) + f(s.last())
    }
}

proof fn lemma_flat_step<A>(s: Seq<A>, f: spec_fn(A) -> Seq<int>, i: int)
    requires
        0 <= i < s.len(),
    ensures
        flat(s.take(i + 1), f) == flat(s.take(i), f) + f(s[i]),
{
    assert(s.take(i + 1).drop_last() =~= s.take(i));
}

proof fn lemma_flat_split<A>(s: Seq<A>, f: spec_fn(A) -> Seq<int>, i: int)
    requires
        0 <= i <= s.len(),
    ensures
        flat(s, f) == flat(s.take(i), f) + flat(s.skip(i), f),
    decreases s.len(),
{
    if i == s.len() {
        assert(s.take(i) =~= s);
        assert(s.skip(i) =~= Seq::<A>::empty());
        assert(flat(s, f) + Seq::<int>::empty() =~= flat(s, f));
    } else {
        lemma_flat_split(s.drop_last(), f, i);
        assert(s.drop_last().take(i) =~= s.take(i));
        assert(s.skip(i).drop_last() =~= s.drop_last().skip(i));
        assert(s.skip(i).last() == s.last());
        assert(flat(s.take(i), f) + flat(s.drop_last().skip(i), f) + f(s.last()) =~= flat(s.take(i), f) + (flat(s.drop_last().skip(i), f) + f(s.last())));
    }
}

proof fn lemma_flat_len<A>(s: Seq<A>, f: spec_fn(A) -> Seq<int>, k: int)
    requires
        forall|a: A| #[trigger] f(a).len() == k,
    ensures
        flat(s, f).len() == k * s.len(),
    decreases s.len(),
{
    if s.len() > 0 {
        lemma_flat_len(s.drop_last(), f, k);
        assert(k * s.len() == k * (s.len() - 1) + k) by (nonlinear_arith);
    }
}

/// The `i`-th item's numbers, and where they start, within a list's.
proof fn lemma_flat_item<A>(s: Seq<A>, f: spec_fn(A) -> Seq<int>, i: int)
    requires
        0 <= i < s.len(),
    ensures
        flat(s, f) == flat(s.take(i), f) + f(s[i]) + flat(s.skip(i + 1), f),
{
    lemma_flat_split(s, f, i + 1);
    lemma_flat_step(s, f, i);
}

/// `x y`.
pub open spec fn position_ints(p: Position) -> Seq<int> {
    seq![p.x as int, p.y as int]
}

/// `id x y halite`.
pub open spec fn ship_report_ints(s: ShipReport) -> Seq<int> {
    seq![s.id.0 as int] + position_ints(s.position) + seq![s.halite as int]
}

/// `id x y`.
pub open spec fn dropoff_report_ints(d: DropoffReport) -> Seq<int> {
    seq![d.id.0 as int] + position_ints(d.position)
}

/// `x y halite`.
pub open spec fn cell_report_ints(c: CellReport) -> Seq<int> {
    position_ints(c.position) + seq![c.halite as int]
}

pub open spec fn ship_reports_ints(rs: Seq<ShipReport>) -> Seq<int> {
    flat(rs, |r: ShipReport| ship_report_ints(r))
}

pub open spec fn dropoff_reports_ints(rs: Seq<DropoffReport>) -> Seq<int> {
    flat(rs, |r: DropoffReport| dropoff_report_ints(r))
}

pub open spec fn cell_reports_ints(rs: Seq<CellReport>) -> Seq<int> {
    flat(rs, |r: CellReport| cell_report_ints(r))
}

/// `id ship-count dropoff-count halite`, then the ships, then the dropoffs.
pub open spec fn player_report_ints(p: PlayerReport) -> Seq<int> {
    seq![p.id.0 as int, p.ships@.len() as int, p.dropoffs@.len() as int, p.halite as int]
        + ship_reports_ints(p.ships@) + dropoff_reports_ints(p.dropoffs@)
}

pub open spec fn player_reports_ints(rs: Seq<PlayerReport>) -> Seq<int> {
    flat(rs, |r: PlayerReport| player_report_ints(r))
}

/// The lists of a player's part are short enough for their counts to be
/// read as `usize`.
pub open spec fn counts_fit(p: PlayerReport) -> bool {
    p.ships@.len() <= usize::MAX && p.dropoffs@.len() <= usize::MAX
}

/// `turn`, the players' parts, `cell-count`, then the cells.
pub open spec fn turn_report_ints(t: TurnReport) -> Seq<int> {
    seq![t.turn as int] + player_reports_ints(t.players@) + seq![t.cells@.len() as int]
        + cell_reports_ints(t.cells@)
}

impl Position {
    /// Read an `x y` point.
    pub fn new_from_engine<S: LineSource>(engine: &mut Engine, src: &mut S) -> (r: Result<
        Position,
        EngineParseError,
    >)
        ensures
            old(engine).extended_by(*final(engine)),
            r is Ok ==> took(old(engine).consumed(), final(engine).consumed(), position_ints(r->Ok_0)),
            r is Err ==> read_error(r->Err_0),
            (exists|p: Position| writes(old(engine).pending(), #[trigger] position_ints(p))) ==> {
                &&& r is Ok
                &&& writes(old(engine).pending(), position_ints(r->Ok_0))
                &&& final(engine).pending() == old(engine).pending().skip(2)
            },
    {
        let ghost e0 = *engine;
        let ghost has = exists|p: Position| writes(e0.pending(), #[trigger] position_ints(p));
        let ghost w = choose|p: Position| writes(e0.pending(), #[trigger] position_ints(p));
        proof {
            if has {
                assert(int_token(e0.pending()[0]) == Some(position_ints(w)[0]));
                assert(int_token(e0.pending()[1]) == Some(position_ints(w)[1]));
            }
        }
        let x = match engine.next_isize(src) {
            Ok(v) => v,
            Err(e) => return Err(e),
        };
        let ghost e1 = *engine;
        let y = match engine.next_isize(src) {
            Ok(v) => v,
            Err(e) => {
                proof {
                    lemma_extended_trans(e0, e1, *engine);
                }
                return Err(e);
            },
        };
        proof {
            lemma_extended_trans(e0, e1, *engine);
            lemma_took_trans(e0.consumed(), e1.consumed(), engine.consumed(), seq![x as int], seq![y as int]);
            assert(seq![x as int] + seq![y as int] =~= position_ints(Position { x, y }));
            if has {
                assert(e1.pending()[0] == e0.pending()[1]);
                assert(engine.pending() =~= e0.pending().skip(2));
                assert(Position { x, y } == w);
            }
        }
        Ok(Position { x, y })
    }
}

impl ShipReport {
    /// Read `id x y halite`.
    pub fn new_from_engine<S: LineSource>(engine: &mut Engine, src: &mut S) -> (r: Result<
        ShipReport,
        EngineParseError,
    >)
        ensures
            old(engine).extended_by(*final(engine)),
            r is Ok ==> took(old(engine).consumed(), final(engine).consumed(), ship_report_ints(r->Ok_0)),
            r is Err ==> read_error(r->Err_0),
            (exists|x: ShipReport| writes(old(engine).pending(), #[trigger] ship_report_ints(x))) ==> {
                &&& r is Ok
                &&& writes(old(engine).pending(), ship_report_ints(r->Ok_0))
                &&& final(engine).pending() == old(engine).pending().skip(4)
            },
    {
        let ghost e0 = *engine;
        let ghost has = exists|x: ShipReport| writes(e0.pending(), #[trigger] ship_report_ints(x));
        let ghost w = choose|x: ShipReport| writes(e0.pending(), #[trigger] ship_report_ints(x));
        proof {
            if has {
                assert(int_token(e0.pending()[0]) == Some(ship_report_ints(w)[0]));
            }
        }
        let id = match engine.next_usize(src) {
            Ok(v) => v,
            Err(e) => return Err(e),
        };
        let ghost e1 = *engine;
        proof {
            if has {
                lemma_writes_mid(e0.pending(), seq![w.id.0 as int], position_ints(w.position), seq![w.halite as int]);
                assert(e1.pending() =~= e0.pending().skip(1));
            }
        }
        let position = match Position::new_from_engine(engine, src) {
            Ok(v) => v,
            Err(e) => {
                proof {
                    lemma_extended_trans(e0, e1, *engine);
                }
                return Err(e);
            },
        };
        let ghost e2 = *engine;
        proof {
            lemma_extended_trans(e0, e1, e2);
        }
        proof {
            if has {
                lemma_writes_agree(e1.pending(), position_ints(w.position), position_ints(position));
                assert(position_ints(w.position)[0] == position_ints(position)[0]);
                assert(position_ints(w.position)[1] == position_ints(position)[1]);
                assert(int_token(e0.pending()[3]) == Some(ship_report_ints(w)[3]));
                assert(e2.pending()[0] == e0.pending()[3]);
            }
        }
        let halite = match engine.next_usize(src) {
            Ok(v) => v,
            Err(e) => {
                proof {
                    lemma_extended_trans(e0, e2, *engine);
                }
                return Err(e);
            },
        };
        proof {
            lemma_extended_trans(e0, e1, e2);
            lemma_extended_trans(e0, e2, *engine);
            lemma_took_trans(e0.consumed(), e1.consumed(), e2.consumed(), seq![id as int], position_ints(position));
            lemma_took_trans(e0.consumed(), e2.consumed(), engine.consumed(), seq![id as int] + position_ints(position), seq![halite as int]);
            if has {
                assert(engine.pending() =~= e0.pending().skip(4));
                assert(ShipReport { id: ShipId(id), position, halite } == w);
            }
        }
        Ok(ShipReport { id: ShipId(id), position, halite })
    }
}

impl DropoffReport {
    /// Read `id x y`.
    pub fn new_from_engine<S: LineSource>(engine: &mut Engine, src: &mut S) -> (r: Result<
        DropoffReport,
        EngineParseError,
    >)
        ensures
            old(engine).extended_by(*final(engine)),
            r is Ok ==> took(old(engine).consumed(), final(engine).consumed(), dropoff_report_ints(r->Ok_0)),
            r is Err ==> read_error(r->Err_0),
            (exists|x: DropoffReport| writes(old(engine).pending(), #[trigger] dropoff_report_ints(x))) ==> {
                &&& r is Ok
                &&& writes(old(engine).pending(), dropoff_report_ints(r->Ok_0))
                &&& final(engine).pending() == old(engine).pending().skip(3)
            },
    {
        let ghost e0 = *engine;
        let ghost has = exists|x: DropoffReport| writes(e0.pending(), #[trigger] dropoff_report_ints(x));
        let ghost w = choose|x: DropoffReport| writes(e0.pending(), #[trigger] dropoff_report_ints(x));
        proof {
            if has {
                assert(int_token(e0.pending()[0]) == Some(dropoff_report_ints(w)[0]));
            }
        }
        let id = match engine.next_usize(src) {
            Ok(v) => v,
            Err(e) => return Err(e),
        };
        let ghost e1 = *engine;
        proof {
            if has {
                lemma_writes_mid(e0.pending(), seq![w.id.0 as int], position_ints(w.position), Seq::empty());
                assert(seq![w.id.0 as int] + position_ints(w.position) + Seq::<int>::empty() =~= dropoff_report_ints(w));
                assert(e1.pending() =~= e0.pending().skip(1));
            }
        }
        let position = match Position::new_from_engine(engine, src) {
            Ok(v) => v,
            Err(e) => {
                proof {
                    lemma_extended_trans(e0, e1, *engine);
                }
                return Err(e);
            },
        };
        proof {
            lemma_extended_trans(e0, e1, *engine);
            lemma_took_trans(e0.consumed(), e1.consumed(), engine.consumed(), seq![id as int], position_ints(position));
            if has {
                lemma_writes_agree(e1.pending(), position_ints(w.position), position_ints(position));
                assert(position_ints(w.position)[0] == position_ints(position)[0]);
                assert(position_ints(w.position)[1] == position_ints(position)[1]);
                assert(engine.pending() =~= e0.pending().skip(3));
                assert(DropoffReport { id: DropoffId(id), position } == w);
            }
        }
        Ok(DropoffReport { id: DropoffId(id), position })
    }
}

impl CellReport {
    /// Read `x y halite`.
    pub fn new_from_engine<S: LineSource>(engine: &mut Engine, src: &mut S) -> (r: Result<
        CellReport,
        EngineParseError,
    >)
        ensures
            old(engine).extended_by(*final(engine)),
            r is Ok ==> took(old(engine).consumed(), final(engine).consumed(), cell_report_ints(r->Ok_0)),
            r is Err ==> read_error(r->Err_0),
            (exists|x: CellReport| writes(old(engine).pending(), #[trigger] cell_report_ints(x))) ==> {
                &&& r is Ok
                &&& writes(old(engine).pending(), cell_report_ints(r->Ok_0))
                &&& final(engine).pending() == old(engine).pending().skip(3)
            },
    {
        let ghost e0 = *engine;
        let ghost has = exists|x: CellReport| writes(e0.pending(), #[trigger] cell_report_ints(x));
        let ghost w = choose|x: CellReport| writes(e0.pending(), #[trigger] cell_report_ints(x));
        proof {
            if has {
                lemma_writes_mid(e0.pending(), Seq::empty(), position_ints(w.position), seq![w.halite as int]);
                assert(Seq::<int>::empty() + position_ints(w.position) + seq![w.halite as int] =~= cell_report_ints(w));
                assert(e0.pending().skip(0) =~= e0.pending());
            }
        }
        let position = match Position::new_from_engine(engine, src) {
            Ok(v) => v,
            Err(e) => return Err(e),
        };
        let ghost e1 = *engine;
        proof {
            if has {
                lemma_writes_agree(e0.pending(), position_ints(w.position), position_ints(position));
                assert(position_ints(w.position)[0] == position_ints(position)[0]);
                assert(position_ints(w.position)[1] == position_ints(position)[1]);
                assert(int_token(e0.pending()[2]) == Some(cell_report_ints(w)[2]));
                assert(e1.pending()[0] == e0.pending()[2]);
            }
        }
        let halite = match engine.next_usize(src) {
            Ok(v) => v,
            Err(e) => {
                proof {
                    lemma_extended_trans(e0, e1, *engine);
                }
                return Err(e);
            },
        };
        proof {
            lemma_extended_trans(e0, e1, *engine);
            lemma_took_trans(e0.consumed(), e1.consumed(), engine.consumed(), position_ints(position), seq![halite as int]);
            if has {
                assert(engine.pending() =~= e0.pending().skip(3));
                assert(CellReport { position, halite } == w);
            }
        }
        Ok(CellReport { position, halite })
    }
}

} // verus!

verus! {

/// Read `count` items, one after the other.
fn read_ships<S: LineSource>(engine: &mut Engine, src: &mut S, count: usize) -> (r: Result<
    Vec<ShipReport>,
    EngineParseError,
>)
    ensures
        old(engine).extended_by(*final(engine)),
        r is Ok ==> r->Ok_0@.len() == count && took(old(engine).consumed(), final(engine).consumed(), ship_reports_ints(r->Ok_0@)),
        r is Err ==> read_error(r->Err_0),
        (exists|x: Seq<ShipReport>| x.len() == count && writes(old(engine).pending(), #[trigger] ship_reports_ints(x))) ==> {
            &&& r is Ok
            &&& writes(old(engine).pending(), ship_reports_ints(r->Ok_0@))
            &&& final(engine).pending() == old(engine).pending().skip(4 * count)
        },
{
    let ghost e0 = *engine;
    let ghost has = exists|x: Seq<ShipReport>| x.len() == count && writes(e0.pending(), #[trigger] ship_reports_ints(x));
    let ghost w = choose|x: Seq<ShipReport>| x.len() == count && writes(e0.pending(), #[trigger] ship_reports_ints(x));
    proof {
        lemma_took_nothing(e0.consumed());
        assert(e0.pending().skip(0) =~= e0.pending());
        assert(e0.stream().take(e0.stream().len() as int) =~= e0.stream());
    }
    let mut v: Vec<ShipReport> = Vec::new();
    let mut i: usize = 0;
    while i < count
        invariant
            0 <= i <= count,
            v@.len() == i,
            e0 == *old(engine),
            e0.extended_by(*engine),
            took(e0.consumed(), engine.consumed(), ship_reports_ints(v@)),
            has ==> w.len() == count && writes(e0.pending(), ship_reports_ints(w)),
            has == (exists|x: Seq<ShipReport>| x.len() == count && writes(e0.pending(), #[trigger] ship_reports_ints(x))),
            has ==> ship_reports_ints(v@) == ship_reports_ints(w.take(i as int)),
            has ==> engine.pending() == e0.pending().skip(4 * i),
        decreases count - i,
    {
        let ghost ci = *engine;
        proof {
            if has {
                lemma_flat_item(w, |r: ShipReport| ship_report_ints(r), i as int);
                lemma_flat_len(w.take(i as int), |r: ShipReport| ship_report_ints(r), 4);
                lemma_writes_mid(e0.pending(), ship_reports_ints(w.take(i as int)), ship_report_ints(w[i as int]), ship_reports_ints(w.skip(i + 1)));
                assert(ci.pending() == e0.pending().skip(ship_reports_ints(w.take(i as int)).len() as int));
                assert(writes(ci.pending(), ship_report_ints(w[i as int])));
            }
        }
        let x = match ShipReport::new_from_engine(engine, src) {
            Ok(x) => x,
            Err(e) => {
                proof {
                    lemma_extended_trans(e0, ci, *engine);
                }
                return Err(e);
            },
        };
        proof {
            lemma_extended_trans(e0, ci, *engine);
            lemma_took_trans(e0.consumed(), ci.consumed(), engine.consumed(), ship_reports_ints(v@), ship_report_ints(x));
            if has {
                lemma_writes_agree(ci.pending(), ship_report_ints(w[i as int]), ship_report_ints(x));
                lemma_flat_step(w, |r: ShipReport| ship_report_ints(r), i as int);
                assert(engine.pending() =~= e0.pending().skip(4 * (i + 1)));
            }
        }
        let ghost before = v@;
        v.push(x);
        assert(v@.drop_last() =~= before);
        i = i + 1;
    }
    proof {
        if has {
            assert(w.take(i as int) =~= w);
        }
    }
    Ok(v)
}

/// Read `count` items, one after the other.
fn read_dropoffs<S: LineSource>(engine: &mut Engine, src: &mut S, count: usize) -> (r: Result<
    Vec<DropoffReport>,
    EngineParseError,
>)
    ensures
        old(engine).extended_by(*final(engine)),
        r is Ok ==> r->Ok_0@.len() == count && took(old(engine).consumed(), final(engine).consumed(), dropoff_reports_ints(r->Ok_0@)),
        r is Err ==> read_error(r->Err_0),
        (exists|x: Seq<DropoffReport>| x.len() == count && writes(old(engine).pending(), #[trigger] dropoff_reports_ints(x))) ==> {
            &&& r is Ok
            &&& writes(old(engine).pending(), dropoff_reports_ints(r->Ok_0@))
            &&& final(engine).pending() == old(engine).pending().skip(3 * count)
        },
{
    let ghost e0 = *engine;
    let ghost has = exists|x: Seq<DropoffReport>| x.len() == count && writes(e0.pending(), #[trigger] dropoff_reports_ints(x));
    let ghost w = choose|x: Seq<DropoffReport>| x.len() == count && writes(e0.pending(), #[trigger] dropoff_reports_ints(x));
    proof {
        lemma_took_nothing(e0.consumed());
        assert(e0.pending().skip(0) =~= e0.pending());
        assert(e0.stream().take(e0.stream().len() as int) =~= e0.stream());
    }
    let mut v: Vec<DropoffReport> = Vec::new();
    let mut i: usize = 0;
    while i < count
        invariant
            0 <= i <= count,
            v@.len() == i,
            e0 == *old(engine),
            e0.extended_by(*engine),
            took(e0.consumed(), engine.consumed(), dropoff_reports_ints(v@)),
            has ==> w.len() == count && writes(e0.pending(), dropoff_reports_ints(w)),
            has == (exists|x: Seq<DropoffReport>| x.len() == count && writes(e0.pending(), #[trigger] dropoff_reports_ints(x))),
            has ==> dropoff_reports_ints(v@) == dropoff_reports_ints(w.take(i as int)),
            has ==> engine.pending() == e0.pending().skip(3 * i),
        decreases count - i,
    {
        let ghost ci = *engine;
        proof {
            if has {
                lemma_flat_item(w, |r: DropoffReport| dropoff_report_ints(r), i as int);
                lemma_flat_len(w.take(i as int), |r: DropoffReport| dropoff_report_ints(r), 3);
                lemma_writes_mid(e0.pending(), dropoff_reports_ints(w.take(i as int)), dropoff_report_ints(w[i as int]), dropoff_reports_ints(w.skip(i + 1)));
                assert(ci.pending() == e0.pending().skip(dropoff_reports_ints(w.take(i as int)).len() as int));
                assert(writes(ci.pending(), dropoff_report_ints(w[i as int])));
            }
        }
        let x = match DropoffReport::new_from_engine(engine, src) {
            Ok(x) => x,
            Err(e) => {
                proof {
                    lemma_extended_trans(e0, ci, *engine);
                }
                return Err(e);
            },
        };
        proof {
            lemma_extended_trans(e0, ci, *engine);
            lemma_took_trans(e0.consumed(), ci.consumed(), engine.consumed(), dropoff_reports_ints(v@), dropoff_report_ints(x));
            if has {
                lemma_writes_agree(ci.pending(), dropoff_report_ints(w[i as int]), dropoff_report_ints(x));
                lemma_flat_step(w, |r: DropoffReport| dropoff_report_ints(r), i as int);
                assert(engine.pending() =~= e0.pending().skip(3 * (i + 1)));
            }
        }
        let ghost before = v@;
        v.push(x);
        assert(v@.drop_last() =~= before);
        i = i + 1;
    }
    proof {
        if has {
            assert(w.take(i as int) =~= w);
        }
    }
    Ok(v)
}

/// Read `count` items, one after the other.
fn read_cells<S: LineSource>(engine: &mut Engine, src: &mut S, count: usize) -> (r: Result<
    Vec<CellReport>,
    EngineParseError,
>)
    ensures
        old(engine).extended_by(*final(engine)),
        r is Ok ==> r->Ok_0@.len() == count && took(old(engine).consumed(), final(engine).consumed(), cell_reports_ints(r->Ok_0@)),
        r is Err ==> read_error(r->Err_0),
        (exists|x: Seq<CellReport>| x.len() == count && writes(old(engine).pending(), #[trigger] cell_reports_ints(x))) ==> {
            &&& r is Ok
            &&& writes(old(engine).pending(), cell_reports_ints(r->Ok_0@))
            &&& final(engine).pending() == old(engine).pending().skip(3 * count)
        },
{
    let ghost e0 = *engine;
    let ghost has = exists|x: Seq<CellReport>| x.len() == count && writes(e0.pending(), #[trigger] cell_reports_ints(x));
    let ghost w = choose|x: Seq<CellReport>| x.len() == count && writes(e0.pending(), #[trigger] cell_reports_ints(x));
    proof {
        lemma_took_nothing(e0.consumed());
        assert(e0.pending().skip(0) =~= e0.pending());
        assert(e0.stream().take(e0.stream().len() as int) =~= e0.stream());
    }
    let mut v: Vec<CellReport> = Vec::new();
    let mut i: usize = 0;
    while i < count
        invariant
            0 <= i <= count,
            v@.len() == i,
            e0 == *old(engine),
            e0.extended_by(*engine),
            took(e0.consumed(), engine.consumed(), cell_reports_ints(v@)),
            has ==> w.len() == count && writes(e0.pending(), cell_reports_ints(w)),
            has == (exists|x: Seq<CellReport>| x.len() == count && writes(e0.pending(), #[trigger] cell_reports_ints(x))),
            has ==> cell_reports_ints(v@) == cell_reports_ints(w.take(i as int)),
            has ==> engine.pending() == e0.pending().skip(3 * i),
        decreases count - i,
    {
        let ghost ci = *engine;
        proof {
            if has {
                lemma_flat_item(w, |r: CellReport| cell_report_ints(r), i as int);
                lemma_flat_len(w.take(i as int), |r: CellReport| cell_report_ints(r), 3);
                lemma_writes_mid(e0.pending(), cell_reports_ints(w.take(i as int)), cell_report_ints(w[i as int]), cell_reports_ints(w.skip(i + 1)));
                assert(ci.pending() == e0.pending().skip(cell_reports_ints(w.take(i as int)).len() as int));
                assert(writes(ci.pending(), cell_report_ints(w[i as int])));
            }
        }
        let x = match CellReport::new_from_engine(engine, src) {
            Ok(x) => x,
            Err(e) => {
                proof {
                    lemma_extended_trans(e0, ci, *engine);
                }
                return Err(e);
            },
        };
        proof {
            lemma_extended_trans(e0, ci, *engine);
            lemma_took_trans(e0.consumed(), ci.consumed(), engine.consumed(), cell_reports_ints(v@), cell_report_ints(x));
            if has {
                lemma_writes_agree(ci.pending(), cell_report_ints(w[i as int]), cell_report_ints(x));
                lemma_flat_step(w, |r: CellReport| cell_report_ints(r), i as int);
                assert(engine.pending() =~= e0.pending().skip(3 * (i + 1)));
            }
        }
        let ghost before = v@;
        v.push(x);
        assert(v@.drop_last() =~= before);
        i = i + 1;
    }
    proof {
        if has {
            assert(w.take(i as int) =~= w);
        }
    }
    Ok(v)
}

impl PlayerReport {
    /// Read a player's part of a turn dump: `id ship-count dropoff-count
    /// halite`, then each ship, then each dropoff.
    pub fn new_from_engine<S: LineSource>(engine: &mut Engine, src: &mut S) -> (r: Result<
        PlayerReport,
        EngineParseError,
    >)
        ensures
            old(engine).extended_by(*final(engine)),
            r is Ok ==> took(old(engine).consumed(), final(engine).consumed(), player_report_ints(r->Ok_0))
                && counts_fit(r->Ok_0),
            r is Err ==> read_error(r->Err_0),
            (exists|x: PlayerReport| counts_fit(x) && writes(old(engine).pending(), #[trigger] player_report_ints(x))) ==> {
                &&& r is Ok
                &&& writes(old(engine).pending(), player_report_ints(r->Ok_0))
                &&& final(engine).pending() == old(engine).pending().skip(
                    player_report_ints(r->Ok_0).len() as int,
                )
            },
    {
        let ghost e0 = *engine;
        let ghost has = exists|x: PlayerReport| counts_fit(x) && writes(e0.pending(), #[trigger] player_report_ints(x));
        let ghost w = choose|x: PlayerReport| counts_fit(x) && writes(e0.pending(), #[trigger] player_report_ints(x));
        let ghost wh = seq![w.id.0 as int, w.ships@.len() as int, w.dropoffs@.len() as int, w.halite as int];
        proof {
            lemma_flat_len(w.ships@, |r: ShipReport| ship_report_ints(r), 4);
            lemma_flat_len(w.dropoffs@, |r: DropoffReport| dropoff_report_ints(r), 3);
            if has {
                assert(player_report_ints(w)[0] == wh[0]);
                assert(player_report_ints(w).len() >= 4);
                assert(int_token(e0.pending()[0]) == Some(wh[0]));
                assert(unsigned_token(e0.pending()[0]) == Some(w.id.0 as nat));
                assert(player_report_ints(w)[1] == wh[1]);
                assert(unsigned_token(e0.pending()[1]) == Some(w.ships@.len()));
            }
        }
        let id = match engine.next_usize(src) {
            Ok(v) => v,
            Err(e) => return Err(e),
        };
        let ghost e1 = *engine;
        proof {
            if has {
                assert(player_report_ints(w)[1] == wh[1]);
                assert(e1.pending()[0] == e0.pending()[1]);
            }
        }
        let ship_count = match engine.next_usize(src) {
            Ok(v) => v,
            Err(e) => {
                proof {
                    lemma_extended_trans(e0, e1, *engine);
                }
                return Err(e);
            },
        };
        let ghost e2 = *engine;
        proof {
            lemma_extended_trans(e0, e1, e2);
            if has {
                assert(player_report_ints(w)[2] == wh[2]);
                assert(e2.pending()[0] == e0.pending()[2]);
            }
        }
        let dropoff_count = match engine.next_usize(src) {
            Ok(v) => v,
            Err(e) => {
                proof {
                    lemma_extended_trans(e0, e2, *engine);
                }
                return Err(e);
            },
        };
        let ghost e3 = *engine;
        proof {
            lemma_extended_trans(e0, e2, e3);
            if has {
                assert(player_report_ints(w)[3] == wh[3]);
                assert(e3.pending()[0] == e0.pending()[3]);
            }
        }
        let halite = match engine.next_usize(src) {
            Ok(v) => v,
            Err(e) => {
                proof {
                    lemma_extended_trans(e0, e3, *engine);
                }
                return Err(e);
            },
        };
        let ghost head = seq![id as int, ship_count as int, dropoff_count as int, halite as int];
        proof {
            lemma_extended_trans(e0, e3, *engine);
            lemma_took_trans(e0.consumed(), e1.consumed(), e2.consumed(), seq![id as int], seq![ship_count as int]);
            lemma_took_trans(e0.consumed(), e2.consumed(), e3.consumed(), seq![id as int] + seq![ship_count as int], seq![dropoff_count as int]);
            lemma_took_trans(e0.consumed(), e3.consumed(), engine.consumed(), seq![id as int] + seq![ship_count as int] + seq![dropoff_count as int], seq![halite as int]);
            assert(seq![id as int] + seq![ship_count as int] + seq![dropoff_count as int] + seq![halite as int] =~= head);
            if has {
                assert(head =~= wh);
                assert(engine.pending() =~= e0.pending().skip(4));
            }
        }
        let ghost e4 = *engine;
        proof {
            if has {
                lemma_writes_mid(e0.pending(), wh, ship_reports_ints(w.ships@), dropoff_reports_ints(w.dropoffs@));
                assert(wh + ship_reports_ints(w.ships@) + dropoff_reports_ints(w.dropoffs@) =~= player_report_ints(w));
            }
        }
        let ships = match read_ships(engine, src, ship_count) {
            Ok(v) => v,
            Err(e) => {
                proof {
                    lemma_extended_trans(e0, e4, *engine);
                }
                return Err(e);
            },
        };
        let ghost e5 = *engine;
        proof {
            lemma_extended_trans(e0, e4, e5);
            if has {
                lemma_flat_len(ships@, |r: ShipReport| ship_report_ints(r), 4);
                lemma_writes_agree(e4.pending(), ship_reports_ints(w.ships@), ship_reports_ints(ships@));
                lemma_writes_mid(e0.pending(), wh + ship_reports_ints(w.ships@), dropoff_reports_ints(w.dropoffs@), Seq::empty());
                assert(wh + ship_reports_ints(w.ships@) + dropoff_reports_ints(w.dropoffs@) + Seq::<int>::empty() =~= player_report_ints(w));
                assert(e5.pending() =~= e0.pending().skip(4 + 4 * w.ships@.len() as int));
            }
        }
        let dropoffs = match read_dropoffs(engine, src, dropoff_count) {
            Ok(v) => v,
            Err(e) => {
                proof {
                    lemma_extended_trans(e0, e5, *engine);
                }
                return Err(e);
            },
        };
        let r = PlayerReport { id: PlayerId(id), halite, ships, dropoffs };
        proof {
            lemma_extended_trans(e0, e5, *engine);
            lemma_took_trans(e0.consumed(), e4.consumed(), e5.consumed(), head, ship_reports_ints(r.ships@));
            lemma_took_trans(e0.consumed(), e5.consumed(), engine.consumed(), head + ship_reports_ints(r.ships@), dropoff_reports_ints(r.dropoffs@));
            if has {
                lemma_flat_len(r.dropoffs@, |r: DropoffReport| dropoff_report_ints(r), 3);
                lemma_writes_agree(e5.pending(), dropoff_reports_ints(w.dropoffs@), dropoff_reports_ints(r.dropoffs@));
                assert(player_report_ints(r) =~= player_report_ints(w));
                assert(engine.pending() =~= e0.pending().skip(player_report_ints(w).len() as int));
            }
        }
        Ok(r)
    }
}

/// Tokens write at most one player's part.
pub proof fn lemma_player_report_unique(ts: Seq<Seq<u8>>, a: PlayerReport, b: PlayerReport)
    requires
        writes(ts, player_report_ints(a)),
        writes(ts, player_report_ints(b)),
    ensures
        player_report_ints(a) == player_report_ints(b),
{
    lemma_flat_len(a.ships@, |r: ShipReport| ship_report_ints(r), 4);
    lemma_flat_len(b.ships@, |r: ShipReport| ship_report_ints(r), 4);
    lemma_flat_len(a.dropoffs@, |r: DropoffReport| dropoff_report_ints(r), 3);
    lemma_flat_len(b.dropoffs@, |r: DropoffReport| dropoff_report_ints(r), 3);
    lemma_writes_agree(ts, player_report_ints(a), player_report_ints(b));
    assert(player_report_ints(a)[1] == player_report_ints(b)[1]);
    assert(player_report_ints(a)[2] == player_report_ints(b)[2]);
}

/// The numbers of a list of ships determine the list.
proof fn lemma_ship_reports_injective(a: Seq<ShipReport>, b: Seq<ShipReport>)
    requires
        ship_reports_ints(a) == ship_reports_ints(b),
    ensures
        a == b,
    decreases a.len(),
{
    let f = |r: ShipReport| ship_report_ints(r);
    lemma_flat_len(a, f, 4);
    lemma_flat_len(b, f, 4);
    if a.len() > 0 {
        let pa = flat(a.drop_last(), f);
        let pb = flat(b.drop_last(), f);
        lemma_flat_len(a.drop_last(), f, 4);
        lemma_flat_len(b.drop_last(), f, 4);
        assert(pa =~= ship_reports_ints(a).subrange(0, pa.len() as int));
        assert(pb =~= ship_reports_ints(b).subrange(0, pb.len() as int));
        assert(f(a.last()) =~= ship_reports_ints(a).subrange(pa.len() as int, ship_reports_ints(a).len() as int));
        assert(f(b.last()) =~= ship_reports_ints(b).subrange(pb.len() as int, ship_reports_ints(b).len() as int));
        assert(f(a.last())[0] == f(b.last())[0]);
        assert(f(a.last())[1] == f(b.last())[1]);
        assert(f(a.last())[2] == f(b.last())[2]);
        assert(f(a.last())[3] == f(b.last())[3]);
        assert(a.last() == b.last());
        lemma_ship_reports_injective(a.drop_last(), b.drop_last());
        assert(a =~= a.drop_last().push(a.last()));
        assert(b =~= b.drop_last().push(b.last()));
    } else {
        assert(a =~= b);
    }
}

/// Equal numbers of a player's part give equal ships.
proof fn lemma_player_report_ships(a: PlayerReport, b: PlayerReport)
    requires
        player_report_ints(a) == player_report_ints(b),
    ensures
        a.id == b.id,
        a.ships@ == b.ships@,
{
    lemma_flat_len(a.ships@, |r: ShipReport| ship_report_ints(r), 4);
    lemma_flat_len(b.ships@, |r: ShipReport| ship_report_ints(r), 4);
    assert(player_report_ints(a)[0] == player_report_ints(b)[0]);
    assert(player_report_ints(a)[1] == player_report_ints(b)[1]);
    let ha = seq![a.id.0 as int, a.ships@.len() as int, a.dropoffs@.len() as int, a.halite as int];
    let hb = seq![b.id.0 as int, b.ships@.len() as int, b.dropoffs@.len() as int, b.halite as int];
    assert(player_report_ints(a) == ha + ship_reports_ints(a.ships@) + dropoff_reports_ints(a.dropoffs@));
    assert(player_report_ints(b) == hb + ship_reports_ints(b.ships@) + dropoff_reports_ints(b.dropoffs@));
    assert(player_report_ints(a)[0] == ha[0]);
    assert(player_report_ints(b)[0] == hb[0]);
    assert(player_report_ints(a)[1] == ha[1]);
    assert(player_report_ints(b)[1] == hb[1]);
    assert(a.id.0 == b.id.0);
    assert(b.ships@.len() == a.ships@.len());
    let n = 4 * (a.ships@.len() as int);
    assert(ship_reports_ints(a.ships@) =~= player_report_ints(a).subrange(4, 4 + n));
    assert(ship_reports_ints(b.ships@) =~= player_report_ints(b).subrange(4, 4 + n));
    lemma_ship_reports_injective(a.ships@, b.ships@);
}

/// Tokens write at most one list of a given number of players' parts.
proof fn lemma_player_reports_unique(ts: Seq<Seq<u8>>, a: Seq<PlayerReport>, b: Seq<PlayerReport>)
    requires
        a.len() == b.len(),
        writes(ts, player_reports_ints(a)),
        writes(ts, player_reports_ints(b)),
    ensures
        player_reports_ints(a) == player_reports_ints(b),
        forall|j: int| 0 <= j < a.len() ==> (#[trigger] a[j]).id == b[j].id && a[j].ships@ == b[j].ships@,
    decreases a.len(),
{
    if a.len() > 0 {
        let f = |r: PlayerReport| player_report_ints(r);
        lemma_flat_split(a, f, 1);
        lemma_flat_split(b, f, 1);
        lemma_flat_step(a, f, 0);
        lemma_flat_step(b, f, 0);
        assert(a.take(0) =~= Seq::<PlayerReport>::empty());
        assert(b.take(0) =~= Seq::<PlayerReport>::empty());
        assert(flat(a.take(1), f) =~= player_report_ints(a[0]));
        assert(flat(b.take(1), f) =~= player_report_ints(b[0]));
        lemma_writes_mid(ts, Seq::empty(), player_report_ints(a[0]), flat(a.skip(1), f));
        lemma_writes_mid(ts, Seq::empty(), player_report_ints(b[0]), flat(b.skip(1), f));
        assert(Seq::<int>::empty() + player_report_ints(a[0]) + flat(a.skip(1), f) =~= player_reports_ints(a));
        assert(Seq::<int>::empty() + player_report_ints(b[0]) + flat(b.skip(1), f) =~= player_reports_ints(b));
        assert(ts.skip(0) =~= ts);
        lemma_player_report_unique(ts, a[0], b[0]);
        let n = player_report_ints(a[0]).len() as int;
        lemma_writes_mid(ts, player_report_ints(a[0]), flat(a.skip(1), f), Seq::empty());
        lemma_writes_mid(ts, player_report_ints(b[0]), flat(b.skip(1), f), Seq::empty());
        assert(player_report_ints(a[0]) + flat(a.skip(1), f) + Seq::<int>::empty() =~= player_reports_ints(a));
        assert(player_report_ints(b[0]) + flat(b.skip(1), f) + Seq::<int>::empty() =~= player_reports_ints(b));
        lemma_player_reports_unique(ts.skip(n), a.skip(1), b.skip(1));
        lemma_player_report_ships(a[0], b[0]);
        assert forall|j: int| 0 <= j < a.len() implies (#[trigger] a[j]).id == b[j].id && a[j].ships@ == b[j].ships@ by {
            if j > 0 {
                assert(a.skip(1)[j - 1] == a[j]);
                assert(b.skip(1)[j - 1] == b[j]);
            }
        }
    }
}

/// Two turn dumps with as many players that the same tokens write list the
/// same players, in the same order.
pub proof fn lemma_turn_report_players(ts: Seq<Seq<u8>>, a: TurnReport, b: TurnReport)
    requires
        a.players@.len() == b.players@.len(),
        writes(ts, turn_report_ints(a)),
        writes(ts, turn_report_ints(b)),
    ensures
        turn_report_ints(a) == turn_report_ints(b),
        forall|j: int| 0 <= j < a.players@.len() ==> (#[trigger] a.players@[j]).id == b.players@[j].id
            && a.players@[j].ships@ == b.players@[j].ships@,
{
    let pa = player_reports_ints(a.players@);
    let pb = player_reports_ints(b.players@);
    let ca = seq![a.cells@.len() as int] + cell_reports_ints(a.cells@);
    let cb = seq![b.cells@.len() as int] + cell_reports_ints(b.cells@);
    assert(turn_report_ints(a) =~= seq![a.turn as int] + pa + ca);
    assert(turn_report_ints(b) =~= seq![b.turn as int] + pb + cb);
    lemma_writes_mid(ts, seq![a.turn as int], pa, ca);
    lemma_writes_mid(ts, seq![b.turn as int], pb, cb);
    lemma_player_reports_unique(ts.skip(1), a.players@, b.players@);
    lemma_writes_mid(ts, seq![a.turn as int] + pa, ca, Seq::empty());
    lemma_writes_mid(ts, seq![b.turn as int] + pb, cb, Seq::empty());
    assert(seq![a.turn as int] + pa + ca + Seq::<int>::empty() =~= turn_report_ints(a));
    assert(seq![b.turn as int] + pb + cb + Seq::<int>::empty() =~= turn_report_ints(b));
    lemma_flat_len(a.cells@, |c: CellReport| cell_report_ints(c), 3);
    lemma_flat_len(b.cells@, |c: CellReport| cell_report_ints(c), 3);
    lemma_writes_agree(ts.skip(1 + pa.len() as int), ca, cb);
    assert(ca[0] == cb[0]);
    lemma_writes_agree(ts, turn_report_ints(a), turn_report_ints(b));
}

/// Read the parts of `count` players, one after the other.
fn read_players<S: LineSource>(engine: &mut Engine, src: &mut S, count: usize) -> (r: Result<
    Vec<PlayerReport>,
    EngineParseError,
>)
    ensures
        old(engine).extended_by(*final(engine)),
        r is Ok ==> r->Ok_0@.len() == count && took(old(engine).consumed(), final(engine).consumed(), player_reports_ints(r->Ok_0@))
            && forall|j: int| 0 <= j < count ==> counts_fit(#[trigger] r->Ok_0@[j]),
        r is Err ==> read_error(r->Err_0),
        (exists|x: Seq<PlayerReport>| x.len() == count && (forall|j: int| 0 <= j < x.len() ==> counts_fit(#[trigger] x[j])) && writes(old(engine).pending(), #[trigger] player_reports_ints(x))) ==> {
            &&& r is Ok
            &&& writes(old(engine).pending(), player_reports_ints(r->Ok_0@))
            &&& final(engine).pending() == old(engine).pending().skip(player_reports_ints(r->Ok_0@).len() as int)
        },
{
    let ghost e0 = *engine;
    let ghost has = exists|x: Seq<PlayerReport>| x.len() == count && (forall|j: int| 0 <= j < x.len() ==> counts_fit(#[trigger] x[j])) && writes(e0.pending(), #[trigger] player_reports_ints(x));
    let ghost w = choose|x: Seq<PlayerReport>| x.len() == count && (forall|j: int| 0 <= j < x.len() ==> counts_fit(#[trigger] x[j])) && writes(e0.pending(), #[trigger] player_reports_ints(x));
    proof {
        lemma_took_nothing(e0.consumed());
        assert(e0.pending().skip(0) =~= e0.pending());
        assert(e0.stream().take(e0.stream().len() as int) =~= e0.stream());
    }
    let mut v: Vec<PlayerReport> = Vec::new();
    let mut i: usize = 0;
    while i < count
        invariant
            0 <= i <= count,
            v@.len() == i,
            e0 == *old(engine),
            e0.extended_by(*engine),
            took(e0.consumed(), engine.consumed(), player_reports_ints(v@)),
            forall|j: int| 0 <= j < i ==> counts_fit(#[trigger] v@[j]),
            has == (exists|x: Seq<PlayerReport>| x.len() == count && (forall|j: int| 0 <= j < x.len() ==> counts_fit(#[trigger] x[j])) && writes(e0.pending(), #[trigger] player_reports_ints(x))),
            has ==> w.len() == count && (forall|j: int| 0 <= j < w.len() ==> counts_fit(#[trigger] w[j])) && writes(e0.pending(), player_reports_ints(w)),
            has ==> player_reports_ints(v@) == player_reports_ints(w.take(i as int)),
            has ==> engine.pending() == e0.pending().skip(player_reports_ints(w.take(i as int)).len() as int),
        decreases count - i,
    {
        let ghost ci = *engine;
        proof {
            if has {
                lemma_flat_item(w, |r: PlayerReport| player_report_ints(r), i as int);
                lemma_writes_mid(e0.pending(), player_reports_ints(w.take(i as int)), player_report_ints(w[i as int]), player_reports_ints(w.skip(i + 1)));
                assert(counts_fit(w[i as int]));
                assert(writes(ci.pending(), player_report_ints(w[i as int])));
            }
        }
        let x = match PlayerReport::new_from_engine(engine, src) {
            Ok(x) => x,
            Err(e) => {
                proof {
                    lemma_extended_trans(e0, ci, *engine);
                }
                return Err(e);
            },
        };
        proof {
            lemma_extended_trans(e0, ci, *engine);
            lemma_took_trans(e0.consumed(), ci.consumed(), engine.consumed(), player_reports_ints(v@), player_report_ints(x));
            if has {
                lemma_player_report_unique(ci.pending(), w[i as int], x);
                lemma_flat_step(w, |r: PlayerReport| player_report_ints(r), i as int);
                assert(engine.pending() =~= e0.pending().skip(player_reports_ints(w.take(i + 1)).len() as int));
            }
        }
        let ghost before = v@;
        v.push(x);
        assert(v@.drop_last() =~= before);
        i = i + 1;
    }
    proof {
        if has {
            assert(w.take(i as int) =~= w);
        }
    }
    Ok(v)
}

/// Whether the lists of a turn dump are short enough for their counts to
/// be read as `usize`.
pub open spec fn turn_counts_fit(t: TurnReport) -> bool {
    &&& t.cells@.len() <= usize::MAX
    &&& forall|j: int| 0 <= j < t.players@.len() ==> counts_fit(#[trigger] t.players@[j])
}

impl TurnReport {
    /// Read a turn dump with one part for each of `player_count` players.
    pub fn new_from_engine<S: LineSource>(
        engine: &mut Engine,
        src: &mut S,
        player_count: usize,
    ) -> (r: Result<TurnReport, EngineParseError>)
        ensures
            old(engine).extended_by(*final(engine)),
            r is Ok ==> took(old(engine).consumed(), final(engine).consumed(), turn_report_ints(r->Ok_0))
                && r->Ok_0.players@.len() == player_count && turn_counts_fit(r->Ok_0),
            r is Err ==> read_error(r->Err_0),
            (exists|t: TurnReport| t.players@.len() == player_count && turn_counts_fit(t) && writes(old(engine).pending(), #[trigger] turn_report_ints(t))) ==> {
                &&& r is Ok
                &&& writes(old(engine).pending(), turn_report_ints(r->Ok_0))
                &&& final(engine).pending() == old(engine).pending().skip(turn_report_ints(r->Ok_0).len() as int)
            },
    {
        let ghost e0 = *engine;
        let ghost has = exists|t: TurnReport| t.players@.len() == player_count && turn_counts_fit(t) && writes(e0.pending(), #[trigger] turn_report_ints(t));
        let ghost w = choose|t: TurnReport| t.players@.len() == player_count && turn_counts_fit(t) && writes(e0.pending(), #[trigger] turn_report_ints(t));
        let ghost wp = player_reports_ints(w.players@);
        let ghost wc = cell_reports_ints(w.cells@);
        proof {
            if has {
                assert(turn_report_ints(w) =~= seq![w.turn as int] + wp + (seq![w.cells@.len() as int] + wc));
                assert(int_token(e0.pending()[0]) == Some(turn_report_ints(w)[0]));
                lemma_writes_mid(e0.pending(), seq![w.turn as int], wp, seq![w.cells@.len() as int] + wc);
                assert(e0.pending().drop_first() =~= e0.pending().skip(1));
            }
        }
        let turn = match engine.next_usize(src) {
            Ok(v) => v,
            Err(e) => return Err(e),
        };
        let ghost e1 = *engine;
        let players = match read_players(engine, src, player_count) {
            Ok(v) => v,
            Err(e) => {
                proof {
                    lemma_extended_trans(e0, e1, *engine);
                }
                return Err(e);
            },
        };
        let ghost e2 = *engine;
        proof {
            lemma_extended_trans(e0, e1, e2);
            if has {
                lemma_player_reports_unique(e1.pending(), w.players@, players@);
                lemma_writes_agree(e0.pending(), turn_report_ints(w), seq![w.turn as int] + wp + (seq![w.cells@.len() as int] + wc));
                lemma_writes_mid(e0.pending(), seq![w.turn as int] + wp, seq![w.cells@.len() as int], wc);
                assert(seq![w.turn as int] + wp + seq![w.cells@.len() as int] + wc =~= turn_report_ints(w));
                assert(e2.pending() =~= e0.pending().skip(1 + wp.len() as int));
                assert(int_token(e2.pending()[0]) == Some(w.cells@.len() as int));
            }
        }
        let cell_count = match engine.next_usize(src) {
            Ok(v) => v,
            Err(e) => {
                proof {
                    lemma_extended_trans(e0, e2, *engine);
                }
                return Err(e);
            },
        };
        let ghost e3 = *engine;
        proof {
            lemma_extended_trans(e0, e2, e3);
            if has {
                lemma_writes_mid(e0.pending(), seq![w.turn as int] + wp + seq![w.cells@.len() as int], wc, Seq::empty());
                assert(seq![w.turn as int] + wp + seq![w.cells@.len() as int] + wc + Seq::<int>::empty() =~= turn_report_ints(w));
                assert(e3.pending() =~= e0.pending().skip(2 + wp.len() as int));
            }
        }
        let cells = match read_cells(engine, src, cell_count) {
            Ok(v) => v,
            Err(e) => {
                proof {
                    lemma_extended_trans(e0, e3, *engine);
                }
                return Err(e);
            },
        };
        let r = TurnReport { turn, players, cells };
        proof {
            lemma_extended_trans(e0, e3, *engine);
            lemma_took_trans(e0.consumed(), e1.consumed(), e2.consumed(), seq![turn as int], player_reports_ints(r.players@));
            lemma_took_trans(e0.consumed(), e2.consumed(), e3.consumed(), seq![turn as int] + player_reports_ints(r.players@), seq![cell_count as int]);
            lemma_took_trans(e0.consumed(), e3.consumed(), engine.consumed(), seq![turn as int] + player_reports_ints(r.players@) + seq![cell_count as int], cell_reports_ints(r.cells@));
            if has {
                lemma_flat_len(r.cells@, |c: CellReport| cell_report_ints(c), 3);
                lemma_flat_len(w.cells@, |c: CellReport| cell_report_ints(c), 3);
                lemma_writes_agree(e3.pending(), wc, cell_reports_ints(r.cells@));
                assert(turn_report_ints(r) =~= turn_report_ints(w));
                assert(engine.pending() =~= e0.pending().skip(turn_report_ints(w).len() as int));
            }
        }
        Ok(r)
    }
}

} // verus!

verus! {

/// `id x y`: a player and where its shipyard stands.
pub open spec fn player_ints(p: Player) -> Seq<int> {
    seq![p.id.0 as int] + position_ints(p.shipyard.position)
}

pub open spec fn players_ints(ps: Seq<Player>) -> Seq<int> {
    flat(ps, |p: Player| player_ints(p))
}

/// The `j`-th player's identifier stands at place `3 j` of the players'
/// numbers.
proof fn lemma_players_ints_id(ps: Seq<Player>, j: int)
    requires
        0 <= j < ps.len(),
    ensures
        players_ints(ps).len() == 3 * ps.len(),
        players_ints(ps)[3 * j] == ps[j].id.0,
{
    let f = |p: Player| player_ints(p);
    lemma_flat_len(ps, f, 3);
    lemma_flat_item(ps, f, j);
    lemma_flat_len(ps.take(j), f, 3);
    assert((flat(ps.take(j), f) + player_ints(ps[j]) + flat(ps.skip(j + 1), f))[3 * j] == player_ints(ps[j])[0]);
}

/// Tokens write at most one well-formed board.
proof fn lemma_board_unique(ts: Seq<Seq<u8>>, a: Board, b: Board)
    requires
        a.wf(),
        b.wf(),
        writes(ts, board_ints(a)),
        writes(ts, board_ints(b)),
    ensures
        board_ints(a) == board_ints(b),
{
    lemma_writes_agree(ts, board_ints(a), board_ints(b));
    assert(board_ints(a)[0] == board_ints(b)[0]);
    assert(board_ints(a)[1] == board_ints(b)[1]);
}

/// A game as its start gives it.
pub open spec fn fresh_game(g: Game) -> bool {
    &&& g.players@.len() <= usize::MAX
    &&& distinct_players(g.players@)
    &&& forall|i: int| 0 <= i < g.players@.len() ==> fresh_player(#[trigger] g.players@[i])
    &&& fresh_board(g.board)
    &&& g.ships@ == Map::<usize, Ship>::empty()
    &&& g.dropoffs@ == Map::<usize, Dropoff>::empty()
    &&& g.commands@.len() == 0
    &&& g.turn == 0
}

/// A player as the game's start gives it: its shipyard bears its
/// identifier, and it owns nothing yet.
pub open spec fn fresh_player(p: Player) -> bool {
    &&& p.shipyard.id.0 == p.id.0
    &&& p.shipyard.player_id == p.id
    &&& p.ship_ids@.len() == 0
    &&& p.dropoff_ids@.len() == 0
    &&& p.halite == 0
}

/// `width height`, then the halite of every cell, row by row.
pub open spec fn board_ints(b: Board) -> Seq<int> {
    seq![b.width as int, b.height as int] + b.cells@.map_values(|c: Cell| c.halite as int)
}

/// `player-count my-id`, the players, then the board.
pub open spec fn game_ints(g: Game) -> Seq<int> {
    seq![g.players@.len() as int, g.my_id.0 as int] + players_ints(g.players@) + board_ints(
        g.board,
    )
}

impl Player {
    /// Read `id x y`: a player and the position of its shipyard, whose
    /// identifier is the player's.
    pub fn new_from_engine<S: LineSource>(engine: &mut Engine, src: &mut S) -> (r: Result<
        Player,
        EngineParseError,
    >)
        ensures
            old(engine).extended_by(*final(engine)),
            r is Ok ==> {
                let p = r->Ok_0;
                &&& took(old(engine).consumed(), final(engine).consumed(), player_ints(p))
                &&& fresh_player(p)
            },
            r is Err ==> read_error(r->Err_0),
            (exists|p: Player| writes(old(engine).pending(), #[trigger] player_ints(p))) ==> {
                &&& r is Ok
                &&& writes(old(engine).pending(), player_ints(r->Ok_0))
                &&& final(engine).pending() == old(engine).pending().skip(3)
            },
    {
        let ghost e0 = *engine;
        let ghost has = exists|p: Player| writes(e0.pending(), #[trigger] player_ints(p));
        let ghost w = choose|p: Player| writes(e0.pending(), #[trigger] player_ints(p));
        proof {
            if has {
                assert(int_token(e0.pending()[0]) == Some(player_ints(w)[0]));
                lemma_writes_mid(e0.pending(), seq![w.id.0 as int], position_ints(w.shipyard.position), Seq::empty());
                assert(seq![w.id.0 as int] + position_ints(w.shipyard.position) + Seq::<int>::empty() =~= player_ints(w));
                assert(e0.pending().drop_first() =~= e0.pending().skip(1));
            }
        }
        let id = match engine.next_usize(src) {
            Ok(v) => v,
            Err(e) => return Err(e),
        };
        let ghost e1 = *engine;
        let position = match Position::new_from_engine(engine, src) {
            Ok(v) => v,
            Err(e) => {
                proof {
                    lemma_extended_trans(e0, e1, *engine);
                }
                return Err(e);
            },
        };
        let player_id = PlayerId(id);
        let shipyard = Shipyard { id: ShipyardId(id), player_id, position };
        let p = Player::new(player_id, shipyard);
        proof {
            lemma_extended_trans(e0, e1, *engine);
            lemma_took_trans(e0.consumed(), e1.consumed(), engine.consumed(), seq![id as int], position_ints(position));
            if has {
                lemma_writes_agree(e1.pending(), position_ints(w.shipyard.position), position_ints(position));
                assert(player_ints(p) =~= player_ints(w));
                assert(engine.pending() =~= e0.pending().skip(3));
            }
        }
        Ok(p)
    }
}

impl Board {
    /// Read `width height` and then the halite of every cell, row by row.
    /// Sides that are not positive, or a board too large to hold, are
    /// refused.
    pub fn new_from_engine<S: LineSource>(engine: &mut Engine, src: &mut S) -> (r: Result<
        Board,
        EngineParseError,
    >)
        ensures
            old(engine).extended_by(*final(engine)),
            r is Ok ==> {
                let b = r->Ok_0;
                &&& took(old(engine).consumed(), final(engine).consumed(), board_ints(b))
                &&& fresh_board(b)
            },
            r is Err ==> read_error(r->Err_0),
            (exists|b: Board| fresh_board(b) && writes(old(engine).pending(), #[trigger] board_ints(b))) ==> {
                &&& r is Ok
                &&& writes(old(engine).pending(), board_ints(r->Ok_0))
                &&& final(engine).pending() == old(engine).pending().skip(board_ints(r->Ok_0).len() as int)
            },
    {
        let ghost e0 = *engine;
        let ghost has = exists|b: Board| fresh_board(b) && writes(e0.pending(), #[trigger] board_ints(b));
        let ghost w = choose|b: Board| fresh_board(b) && writes(e0.pending(), #[trigger] board_ints(b));
        let ghost wv = w.cells@.map_values(|c: Cell| c.halite as int);
        proof {
            if has {
                assert(int_token(e0.pending()[0]) == Some(board_ints(w)[0]));
                assert(int_token(e0.pending()[1]) == Some(board_ints(w)[1]));
            }
        }
        let width = match engine.next_isize(src) {
            Ok(v) => v,
            Err(e) => return Err(e),
        };
        let ghost e1 = *engine;
        proof {
            if has {
                assert(e1.pending()[0] == e0.pending()[1]);
            }
        }
        let height = match engine.next_isize(src) {
            Ok(v) => v,
            Err(e) => {
                proof {
                    lemma_extended_trans(e0, e1, *engine);
                }
                return Err(e);
            },
        };
        let ghost e2 = *engine;
        proof {
            lemma_extended_trans(e0, e1, e2);
            lemma_took_trans(e0.consumed(), e1.consumed(), e2.consumed(), seq![width as int], seq![height as int]);
        }
        if width <= 0 || height <= 0 {
            return Err(EngineParseError::InvalidToken);
        }
        let n = match (width as usize).checked_mul(height as usize) {
            Some(n) => n,
            None => return Err(EngineParseError::InvalidToken),
        };
        proof {
            lemma_took_nothing(e2.consumed());
            if has {
                assert(width == w.width && height == w.height);
                lemma_writes_mid(e0.pending(), seq![w.width as int, w.height as int], wv, Seq::empty());
                assert(seq![w.width as int, w.height as int] + wv + Seq::<int>::empty() =~= board_ints(w));
                assert(e2.pending() =~= e0.pending().skip(2));
            }
        }
        let mut board = Board::new(width, height);
        let ghost fresh = board.cells@;
        let mut i: usize = 0;
        proof {
            assert(board.cells@.take(0).map_values(|c: Cell| c.halite as int) =~= Seq::<int>::empty());
        }
        while i < n
            invariant
                n == width * height,
                board.wf(),
                board.width == width,
                board.height == height,
                0 <= i <= n,
                e0 == *old(engine),
                e0.extended_by(*engine),
                e0.extended_by(e2),
                took(e2.consumed(), engine.consumed(), board.cells@.take(i as int).map_values(|c: Cell| c.halite as int)),
                forall|j: int|
                    0 <= j < n ==> {
                        &&& (#[trigger] board.cells@[j]).position == fresh[j].position
                        &&& board.cells@[j].ship is None
                        &&& board.cells@[j].structure is None
                    },
                forall|j: int| 0 <= j < n ==> fresh[j] == Cell::new_spec(grid_position(j, width as int), 0),
                has == (exists|b: Board| fresh_board(b) && writes(e0.pending(), #[trigger] board_ints(b))),
                has ==> fresh_board(w) && w.width == width && w.height == height,
                has ==> wv == w.cells@.map_values(|c: Cell| c.halite as int),
                has ==> writes(e2.pending(), wv),
                has ==> engine.pending() == e2.pending().skip(i as int),
                has ==> board.cells@.take(i as int).map_values(|c: Cell| c.halite as int) == wv.take(i as int),
            decreases n - i,
        {
            let ghost ci = *engine;
            proof {
                if has {
                    assert(ci.pending()[0] == e2.pending()[i as int]);
                    assert(int_token(e2.pending()[i as int]) == Some(wv[i as int]));
                }
            }
            let halite = match engine.next_usize(src) {
                Ok(v) => v,
                Err(e) => {
                    proof {
                        lemma_extended_trans(e0, ci, *engine);
                    }
                    return Err(e);
                },
            };
            let ghost prev = board.cells@;
            let c = board.cells[i];
            board.cells.set(i, Cell { halite, ..c });
            proof {
                lemma_extended_trans(e0, ci, *engine);
                lemma_took_trans(e2.consumed(), ci.consumed(), engine.consumed(), prev.take(i as int).map_values(|c: Cell| c.halite as int), seq![halite as int]);
                assert(board.cells@.take(i + 1).map_values(|c: Cell| c.halite as int) =~= prev.take(i as int).map_values(|c: Cell| c.halite as int) + seq![halite as int]);
                if has {
                    assert(board.cells@.take(i + 1).map_values(|c: Cell| c.halite as int) =~= wv.take(i + 1));
                    assert(engine.pending() =~= e2.pending().skip(i + 1));
                }
            }
            i = i + 1;
        }
        proof {
            assert(board.cells@.take(n as int) =~= board.cells@);
            lemma_took_trans(e0.consumed(), e2.consumed(), engine.consumed(), seq![width as int] + seq![height as int], board.cells@.map_values(|c: Cell| c.halite as int));
            assert(seq![width as int] + seq![height as int] =~= seq![width as int, height as int]);
            if has {
                assert(wv.take(n as int) =~= wv);
                assert(board_ints(board) =~= board_ints(w));
                assert(engine.pending() =~= e0.pending().skip(board_ints(w).len() as int));
            }
        }
        Ok(board)
    }
}

/// A board as the game's start gives it: well formed, each cell at its
/// place, with no ship and no structure.
pub open spec fn fresh_board(b: Board) -> bool {
    &&& b.wf()
    &&& forall|i: int|
        0 <= i < b.cells@.len() ==> {
            &&& (#[trigger] b.cells@[i]).position == grid_position(i, b.width as int)
            &&& b.cells@[i].ship is None
            &&& b.cells@[i].structure is None
        }
}

} // verus!

verus! {

impl Game {
    fn find_duplicate(players: &Vec<Player>) -> (r: bool)
        ensures
            r == !distinct_players(players@),
    {
        let n = players.len();
        let mut i: usize = 0;
        while i < n
            invariant
                n == players@.len(),
                0 <= i <= n,
                forall|a: int, b: int| 0 <= a < b < n && a < i ==> players@[a].id != players@[b].id,
            decreases n - i,
        {
            let mut j: usize = i + 1;
            while j < n
                invariant
                    n == players@.len(),
                    0 <= i < n,
                    i + 1 <= j <= n,
                    forall|a: int, b: int| 0 <= a < b < n && a < i ==> players@[a].id != players@[b].id,
                    forall|b: int| i < b < j ==> players@[i as int].id != players@[b].id,
                decreases n - j,
            {
                if players[i].id == players[j].id {
                    return true;
                }
                j = j + 1;
            }
            i = i + 1;
        }
        false
    }

    /// Read the game at its start: `player-count my-id`, each player with
    /// its shipyard's position, then the board. A start that lists a player
    /// twice is refused.
    pub fn new_from_engine<S: LineSource>(engine: &mut Engine, src: &mut S) -> (r: Result<
        Game,
        EngineParseError,
    >)
        ensures
            old(engine).extended_by(*final(engine)),
            r is Ok ==> {
                let g = r->Ok_0;
                &&& g.wf()
                &&& fresh_game(g)
                &&& took(old(engine).consumed(), final(engine).consumed(), game_ints(g))
            },
            r is Err ==> read_error(r->Err_0) || r->Err_0 == EngineParseError::DuplicatePlayer,
            (exists|g: Game| fresh_game(g) && writes(old(engine).pending(), #[trigger] game_ints(g))) ==> {
                &&& r is Ok
                &&& writes(old(engine).pending(), game_ints(r->Ok_0))
                &&& final(engine).pending() == old(engine).pending().skip(game_ints(r->Ok_0).len() as int)
            },
    {
        let ghost e0 = *engine;
        let ghost has = exists|g: Game| fresh_game(g) && writes(e0.pending(), #[trigger] game_ints(g));
        let ghost w = choose|g: Game| fresh_game(g) && writes(e0.pending(), #[trigger] game_ints(g));
        let ghost wp = players_ints(w.players@);
        proof {
            if has {
                assert(int_token(e0.pending()[0]) == Some(game_ints(w)[0]));
                assert(int_token(e0.pending()[1]) == Some(game_ints(w)[1]));
            }
        }
        let player_count = match engine.next_usize(src) {
            Ok(v) => v,
            Err(e) => return Err(e),
        };
        let ghost e1 = *engine;
        proof {
            if has {
                assert(e1.pending()[0] == e0.pending()[1]);
            }
        }
        let my_id = match engine.next_usize(src) {
            Ok(v) => v,
            Err(e) => {
                proof {
                    lemma_extended_trans(e0, e1, *engine);
                }
                return Err(e);
            },
        };
        let ghost e2 = *engine;
        proof {
            lemma_extended_trans(e0, e1, e2);
            lemma_took_trans(e0.consumed(), e1.consumed(), e2.consumed(), seq![player_count as int], seq![my_id as int]);
            lemma_took_nothing(e2.consumed());
            if has {
                assert(e2.pending() =~= e0.pending().skip(2));
                lemma_writes_mid(e0.pending(), seq![player_count as int, my_id as int], wp, board_ints(w.board));
                assert(seq![player_count as int, my_id as int] + wp + board_ints(w.board) =~= game_ints(w));
                lemma_flat_len(w.players@, |p: Player| player_ints(p), 3);
            }
        }
        let mut players: Vec<Player> = Vec::new();
        let mut i: usize = 0;
        while i < player_count
            invariant
                0 <= i <= player_count,
                players@.len() == i,
                e0 == *old(engine),
                e0.extended_by(*engine),
                took(e2.consumed(), engine.consumed(), players_ints(players@)),
                forall|j: int| 0 <= j < players@.len() ==> fresh_player(#[trigger] players@[j]),
                has == (exists|g: Game| fresh_game(g) && writes(e0.pending(), #[trigger] game_ints(g))),
                has ==> fresh_game(w) && player_count == w.players@.len(),
                has ==> wp == players_ints(w.players@),
                has ==> writes(e2.pending(), wp),
                has ==> players_ints(players@) == players_ints(w.players@.take(i as int)),
                has ==> engine.pending() == e2.pending().skip(3 * i),
            decreases player_count - i,
        {
            let ghost ci = *engine;
            proof {
                if has {
                    lemma_flat_item(w.players@, |p: Player| player_ints(p), i as int);
                    lemma_flat_len(w.players@.take(i as int), |p: Player| player_ints(p), 3);
                    lemma_writes_mid(e2.pending(), players_ints(w.players@.take(i as int)), player_ints(w.players@[i as int]), players_ints(w.players@.skip(i + 1)));
                    assert(ci.pending() == e2.pending().skip(players_ints(w.players@.take(i as int)).len() as int));
                    assert(writes(ci.pending(), player_ints(w.players@[i as int])));
                }
            }
            let p = match Player::new_from_engine(engine, src) {
                Ok(v) => v,
                Err(e) => {
                    proof {
                        lemma_extended_trans(e0, ci, *engine);
                    }
                    return Err(e);
                },
            };
            proof {
                lemma_extended_trans(e0, ci, *engine);
                lemma_took_trans(e2.consumed(), ci.consumed(), engine.consumed(), players_ints(players@), player_ints(p));
                if has {
                    lemma_writes_agree(ci.pending(), player_ints(w.players@[i as int]), player_ints(p));
                    lemma_flat_step(w.players@, |p: Player| player_ints(p), i as int);
                    assert(engine.pending() =~= e2.pending().skip(3 * (i + 1)));
                }
            }
            let ghost before = players@;
            players.push(p);
            assert(players@.drop_last() =~= before);
            i = i + 1;
        }
        let ghost e3 = *engine;
        proof {
            if has {
                assert(w.players@.take(i as int) =~= w.players@);
                lemma_writes_mid(e0.pending(), seq![player_count as int, my_id as int] + wp, board_ints(w.board), Seq::empty());
                assert(seq![player_count as int, my_id as int] + wp + board_ints(w.board) + Seq::<int>::empty() =~= game_ints(w));
                assert(e3.pending() =~= e0.pending().skip(2 + wp.len() as int));
            }
        }
        let board = match Board::new_from_engine(engine, src) {
            Ok(v) => v,
            Err(e) => {
                proof {
                    lemma_extended_trans(e0, e3, *engine);
                }
                return Err(e);
            },
        };
        proof {
            lemma_extended_trans(e0, e3, *engine);
            if has {
                lemma_board_unique(e3.pending(), w.board, board);
                assert forall|a: int, b: int| 0 <= a < b < players@.len() implies players@[a].id != players@[b].id by {
                    lemma_players_ints_id(players@, a);
                    lemma_players_ints_id(players@, b);
                    lemma_players_ints_id(w.players@, a);
                    lemma_players_ints_id(w.players@, b);
                }
            }
        }
        if Game::find_duplicate(&players) {
            return Err(EngineParseError::DuplicatePlayer);
        }
        let g = Game::new(PlayerId(my_id), players, board);
        proof {
            lemma_took_trans(e0.consumed(), e2.consumed(), e3.consumed(), seq![player_count as int] + seq![my_id as int], players_ints(g.players@));
            lemma_took_trans(e0.consumed(), e3.consumed(), engine.consumed(), seq![player_count as int] + seq![my_id as int] + players_ints(g.players@), board_ints(g.board));
            assert(seq![player_count as int] + seq![my_id as int] =~= seq![g.players@.len() as int, g.my_id.0 as int]);
            if has {
                assert(game_ints(g) =~= game_ints(w));
                assert(engine.pending() =~= e0.pending().skip(game_ints(w).len() as int));
            }
        }
        Ok(g)
    }

    /// Read a turn dump for the known players and take it in (see
    /// `apply_turn`). When the dump cannot be read, nothing changes. When the
    /// pending tokens already write a dump, it is the one taken in: refused
    /// exactly when it does not list the known players in their order.
    pub fn update_from_engine<S: LineSource>(&mut self, engine: &mut Engine, src: &mut S) -> (r:
        Result<(), EngineParseError>)
        requires
            old(self).wf(),
        ensures
            final(self).wf(),
            old(engine).extended_by(*final(engine)),
            r is Ok ==> exists|t: TurnReport|
                took(old(engine).consumed(), final(engine).consumed(), #[trigger] turn_report_ints(t))
                    && turn_applied(*old(self), t, *final(self)),
            r == Err::<(), EngineParseError>(EngineParseError::UnknownPlayer) ==> exists|
                t: TurnReport,
            |
                took(old(engine).consumed(), final(engine).consumed(), #[trigger] turn_report_ints(t))
                    && !players_match(old(self).players@, t.players@),
            r is Err ==> *final(self) == *old(self),
            r is Err ==> read_error(r->Err_0) || r->Err_0 == EngineParseError::UnknownPlayer,
            forall|t: TurnReport|
                t.players@.len() == old(self).players@.len() && turn_counts_fit(t) && writes(
                    old(engine).pending(),
                    #[trigger] turn_report_ints(t),
                ) ==> {
                    &&& (r is Ok <==> players_match(old(self).players@, t.players@))
                    &&& r is Ok ==> exists|u: TurnReport|
                        turn_report_ints(u) == turn_report_ints(t) && turn_applied(*old(self), u, *final(self))
                    &&& r is Ok ==> final(self).ships@ == reconciled_ships(old(self).ships@, t.players@)
                    &&& r is Ok ==> forall|i: int|
                        0 <= i < final(self).players@.len() ==> (#[trigger] final(self).players@[i]).ship_ids@
                            == ship_ids_of(t.players@[i].ships@)
                    &&& final(engine).pending() == old(engine).pending().skip(turn_report_ints(t).len() as int)
                },
    {
        let ghost e0 = *engine;
        let report = match TurnReport::new_from_engine(engine, src, self.players.len()) {
            Ok(t) => t,
            Err(e) => return Err(e),
        };
        let r = self.apply_turn(&report);
        proof {
            assert(took(e0.consumed(), engine.consumed(), turn_report_ints(report)));
            assert forall|t: TurnReport|
                t.players@.len() == old(self).players@.len() && turn_counts_fit(t) && writes(
                    e0.pending(),
                    #[trigger] turn_report_ints(t),
                ) implies {
                    &&& (r is Ok <==> players_match(old(self).players@, t.players@))
                    &&& r is Ok ==> exists|u: TurnReport|
                        turn_report_ints(u) == turn_report_ints(t) && turn_applied(*old(self), u, *self)
                    &&& r is Ok ==> self.ships@ == reconciled_ships(old(self).ships@, t.players@)
                    &&& r is Ok ==> forall|i: int|
                        0 <= i < self.players@.len() ==> (#[trigger] self.players@[i]).ship_ids@
                            == ship_ids_of(t.players@[i].ships@)
                    &&& engine.pending() == e0.pending().skip(turn_report_ints(t).len() as int)
                } by {
                assert(writes(e0.pending(), turn_report_ints(report)));
                lemma_turn_report_players(e0.pending(), t, report);
                let ps = old(self).players@;
                if players_match(ps, t.players@) {
                    assert forall|i: int| 0 <= i < report.players@.len() implies #[trigger] report.players@[i].id == ps[i].id by {
                        assert(t.players@[i].id == report.players@[i].id);
                        assert(t.players@[i].id == ps[i].id);
                    }
                }
                if players_match(ps, report.players@) {
                    assert forall|i: int| 0 <= i < t.players@.len() implies #[trigger] t.players@[i].id == ps[i].id by {
                        assert(t.players@[i].id == report.players@[i].id);
                        assert(report.players@[i].id == ps[i].id);
                    }
                }
                if r is Ok {
                    assert(turn_report_ints(report) == turn_report_ints(t) && turn_applied(*old(self), report, *self));
                    lemma_reconciled_ships_congruent(old(self).ships@, report.players@, t.players@);
                    assert forall|i: int| 0 <= i < self.players@.len() implies (#[trigger] self.players@[i]).ship_ids@
                        == ship_ids_of(t.players@[i].ships@) by {
                        assert(t.players@[i].ships@ == report.players@[i].ships@);
                    }
                }
            }
        }
        r
    }

    /// Read the game at its start, after which the reader must hold no
    /// unread token.
    pub fn start<S: LineSource>(engine: &mut Engine, src: &mut S) -> (r: Result<
        Game,
        EngineParseError,
    >)
        ensures
            old(engine).extended_by(*final(engine)),
            r is Ok ==> {
                let g = r->Ok_0;
                &&& g.wf()
                &&& fresh_game(g)
                &&& took(old(engine).consumed(), final(engine).consumed(), game_ints(g))
                &&& final(engine).pending().len() == 0
            },
            r == Err::<Game, EngineParseError>(EngineParseError::LeftoverToken) ==> final(engine).pending().len()
                > 0,
            (exists|g: Game| fresh_game(g) && old(engine).pending().len() == game_ints(g).len() && writes(old(engine).pending(), #[trigger] game_ints(g))) ==> {
                &&& r is Ok
                &&& writes(old(engine).pending(), game_ints(r->Ok_0))
            },
    {
        let ghost e0 = *engine;
        let ghost has = exists|g: Game| fresh_game(g) && e0.pending().len() == game_ints(g).len() && writes(e0.pending(), #[trigger] game_ints(g));
        let ghost w = choose|g: Game| fresh_game(g) && e0.pending().len() == game_ints(g).len() && writes(e0.pending(), #[trigger] game_ints(g));
        let g = match Game::new_from_engine(engine, src) {
            Ok(g) => g,
            Err(e) => return Err(e),
        };
        proof {
            if has {
                assert(fresh_game(w) && writes(e0.pending(), game_ints(w)));
                lemma_game_ints_len(w);
                lemma_game_ints_len(g);
                lemma_writes_agree(e0.pending(), game_ints(w), game_ints(g));
                assert(game_ints(w)[0] == game_ints(g)[0]);
                assert(game_ints(w)[2 + 3 * (w.players@.len() as int)] == game_ints(g)[2 + 3 * (g.players@.len() as int)]);
                assert(game_ints(w)[3 + 3 * (w.players@.len() as int)] == game_ints(g)[3 + 3 * (g.players@.len() as int)]);
                assert(engine.pending().len() == 0);
            }
        }
        if !engine.is_drained() {
            return Err(EngineParseError::LeftoverToken);
        }
        Ok(g)
    }

    /// Read and take in the next turn's dump, after which the reader must
    /// hold no unread token.
    pub fn update<S: LineSource>(&mut self, engine: &mut Engine, src: &mut S) -> (r: Result<
        (),
        EngineParseError,
    >)
        requires
            old(self).wf(),
        ensures
            final(self).wf(),
            old(engine).extended_by(*final(engine)),
            r is Ok ==> final(engine).pending().len() == 0 && exists|t: TurnReport|
                took(old(engine).consumed(), final(engine).consumed(), #[trigger] turn_report_ints(t))
                    && turn_applied(*old(self), t, *final(self)),
            r == Err::<(), EngineParseError>(EngineParseError::LeftoverToken) ==> final(engine).pending().len()
                > 0,
            forall|t: TurnReport|
                t.players@.len() == old(self).players@.len() && turn_counts_fit(t)
                    && old(engine).pending().len() == turn_report_ints(t).len() && writes(
                    old(engine).pending(),
                    #[trigger] turn_report_ints(t),
                ) ==> {
                    &&& (r is Ok <==> players_match(old(self).players@, t.players@))
                    &&& r is Ok ==> exists|u: TurnReport|
                        turn_report_ints(u) == turn_report_ints(t) && turn_applied(*old(self), u, *final(self))
                    &&& r is Ok ==> final(self).ships@ == reconciled_ships(old(self).ships@, t.players@)
                    &&& r is Ok ==> forall|i: int|
                        0 <= i < final(self).players@.len() ==> (#[trigger] final(self).players@[i]).ship_ids@
                            == ship_ids_of(t.players@[i].ships@)
                },
    {
        match self.update_from_engine(engine, src) {
            Ok(()) => {},
            Err(e) => return Err(e),
        }
        if !engine.is_drained() {
            return Err(EngineParseError::LeftoverToken);
        }
        Ok(())
    }
}

/// The numbers of a game's start: the counts, three per player, then the
/// board's sides and cells.
proof fn lemma_game_ints_len(g: Game)
    requires
        fresh_game(g),
    ensures
        game_ints(g).len() == 4 + 3 * g.players@.len() + g.board.width * g.board.height,
        game_ints(g)[0] == g.players@.len(),
        game_ints(g)[2 + 3 * (g.players@.len() as int)] == g.board.width,
        game_ints(g)[3 + 3 * (g.players@.len() as int)] == g.board.height,
{
    lemma_flat_len(g.players@, |p: Player| player_ints(p), 3);
}

} // verus!

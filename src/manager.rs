//! The manager: the one owner of the game, the registry of connections and
//! the pool of free seats. It takes one message at a time and answers with
//! the messages to send to connections; the caller runs the mailbox.

use crate::board::{Game, Player};
use crate::protocol::{ConnectionId, ConnectionMessage, ManagerMessage};
use vstd::prelude::*;

verus! {

/// Where the manager stands in its life.
#[derive(Debug, Clone, Copy, PartialEq, Eq, Structural)]
pub enum Phase {
    /// Taking connections and moves.
    Running,
    /// Shutting down: connections have been asked to exit, and no new ones
    /// are taken.
    Draining,
    /// Done: the mailbox loop ends.
    Stopped,
}

/// A message for one connection.
#[derive(Debug, Clone, Copy, PartialEq, Eq)]
pub struct Outgoing {
    pub to: ConnectionId,
    pub msg: ConnectionMessage,
}

/// The state of the manager, as contracts see it.
pub struct ManagerView {
    pub game: Game,
    /// The registered connections, oldest first.
    pub registry: Seq<ConnectionId>,
    /// The free seats; the last one is handed out next.
    pub pool: Seq<Player>,
    /// The connection that holds seat X, if any.
    pub holder_x: Option<ConnectionId>,
    /// The connection that holds seat O, if any.
    pub holder_o: Option<ConnectionId>,
    pub phase: Phase,
}

/// `msg` addressed to each of `ids`, in order.
pub open spec fn to_each(ids: Seq<ConnectionId>, msg: ConnectionMessage) -> Seq<Outgoing> {
    ids.map_values(|id: ConnectionId| Outgoing { to: id, msg })
}

impl ManagerView {
    pub open spec fn holder(self, p: Player) -> Option<ConnectionId> {
        match p {
            Player::X => self.holder_x,
            Player::O => self.holder_o,
        }
    }

    /// How many seats some connection holds.
    pub open spec fn n_assigned(self) -> nat {
        (if self.holder_x is Some { 1nat } else { 0nat }) + (if self.holder_o is Some { 1nat } else { 0nat })
    }

    /// Every seat is either free or held by one registered connection, and
    /// a draining manager still has connections to wait for.
    pub open spec fn wf(self) -> bool {
        &&& self.registry.no_duplicates()
        &&& self.pool.no_duplicates()
        &&& forall|p: Player| #[trigger] self.pool.contains(p) <==> self.holder(p) is None
        &&& forall|p: Player| #[trigger] self.holder(p) matches Some(id) ==> self.registry.contains(id)
        &&& (self.holder_x is Some && self.holder_o is Some ==> self.holder_x != self.holder_o)
        &&& (self.phase is Draining ==> self.registry.len() > 0)
    }

    /// The state after `id` has left: out of the registry, and its seats
    /// back in the pool, X before O.
    pub open spec fn without(self, id: ConnectionId) -> ManagerView {
        let pool1 = if self.holder_x == Some(id) { self.pool.push(Player::X) } else { self.pool };
        let pool2 = if self.holder_o == Some(id) { pool1.push(Player::O) } else { pool1 };
        let registry = self.registry.remove_value(id);
        ManagerView {
            registry,
            pool: pool2,
            holder_x: if self.holder_x == Some(id) { None } else { self.holder_x },
            holder_o: if self.holder_o == Some(id) { None } else { self.holder_o },
            phase: if self.phase is Draining && registry.len() == 0 { Phase::Stopped } else { self.phase },
            ..self
        }
    }

    /// What the manager does with `msg`: its next state, and what it sends.
    /// A move is applied only while the board has no winner; once one seat
    /// holds a line the game is over and later moves are ignored. A leaving
    /// connection's seat is taken back from the manager's own record.
    pub open spec fn next(self, msg: ManagerMessage) -> (ManagerView, Seq<Outgoing>) {
        if self.phase is Stopped {
            (self, seq![])
        } else {
            match msg {
                ManagerMessage::Exit => {
                    if self.registry.len() == 0 {
                        (ManagerView { phase: Phase::Stopped, ..self }, seq![])
                    } else {
                        (
                            ManagerView { phase: Phase::Draining, ..self },
                            to_each(self.registry, ConnectionMessage::Exit),
                        )
                    }
                },
                ManagerMessage::Connect(id) => {
                    if self.phase is Draining || self.registry.contains(id) {
                        (self, seq![])
                    } else if self.pool.len() == 0 {
                        (
                            ManagerView { registry: self.registry.push(id), ..self },
                            seq![
                                Outgoing { to: id, msg: ConnectionMessage::Game(self.game) },
                                Outgoing { to: id, msg: ConnectionMessage::SetPlayer(None) },
                            ],
                        )
                    } else {
                        let seat = self.pool.last();
                        (
                            ManagerView {
                                registry: self.registry.push(id),
                                pool: self.pool.drop_last(),
                                holder_x: if seat == Player::X { Some(id) } else { self.holder_x },
                                holder_o: if seat == Player::O { Some(id) } else { self.holder_o },
                                ..self
                            },
                            seq![
                                Outgoing { to: id, msg: ConnectionMessage::Game(self.game) },
                                Outgoing { to: id, msg: ConnectionMessage::SetPlayer(Some(seat)) },
                            ],
                        )
                    }
                },
                ManagerMessage::Disconnect(id, _) => {
                    if self.registry.contains(id) {
                        (self.without(id), seq![])
                    } else {
                        (self, seq![])
                    }
                },
                ManagerMessage::Move(p, req) => {
                    if self.game.board.spec_winner() is Some {
                        (self, seq![])
                    } else {
                        match self.game.move_outcome(p, req.row as int, req.col as int) {
                            Ok(g) => (
                                ManagerView { game: g, ..self },
                                to_each(self.registry, ConnectionMessage::Game(g)),
                            ),
                            Err(_) => (self, seq![]),
                        }
                    }
                },
                ManagerMessage::Broadcast(m) => (self, to_each(self.registry, m)),
            }
        }
    }
}

/// The fields of the manager's state.
struct State {
    game: Game,
    registry: Vec<ConnectionId>,
    pool: Vec<Player>,
    holder_x: Option<ConnectionId>,
    holder_o: Option<ConnectionId>,
    phase: Phase,
}

impl View for State {
    type V = ManagerView;

    closed spec fn view(&self) -> ManagerView {
        ManagerView {
            game: self.game,
            registry: self.registry@,
            pool: self.pool@,
            holder_x: self.holder_x,
            holder_o: self.holder_o,
            phase: self.phase,
        }
    }
}

/// `msg` addressed to each of `ids`, in order.
fn send_to_each(ids: &Vec<ConnectionId>, msg: ConnectionMessage) -> (r: Vec<Outgoing>)
    ensures
        r@ == to_each(ids@, msg),
{
    let mut out: Vec<Outgoing> = Vec::new();
    let mut i: usize = 0;
    while i < ids.len()
        invariant
            i <= ids@.len(),
            out@ == to_each(ids@.subrange(0, i as int), msg),
        decreases ids@.len() - i,
    {
        out.push(Outgoing { to: ids[i], msg });
        i = i + 1;
        assert(out@ =~= to_each(ids@.subrange(0, i as int), msg));
    }
    assert(ids@.subrange(0, i as int) =~= ids@);
    out
}

/// Where `id` first stands in `ids`, if it does.
fn position(ids: &Vec<ConnectionId>, id: ConnectionId) -> (r: Option<usize>)
    ensures
        match r {
            Some(i) => i < ids@.len() && ids@[i as int] == id && ids@.index_of_first(id) == Some(
                i as int,
            ),
            None => !ids@.contains(id),
        },
{
    let mut i: usize = 0;
    while i < ids.len()
        invariant
            i <= ids@.len(),
            forall|j: int| 0 <= j < i ==> ids@[j] != id,
        decreases ids@.len() - i,
    {
        if ids[i] == id {
            proof {
                ids@.index_of_first_ensures(id);
            }
            return Some(i);
        }
        i = i + 1;
    }
    None
}

proof fn lemma_remove_value(s: Seq<ConnectionId>, id: ConnectionId)
    requires
        s.no_duplicates(),
        s.contains(id),
    ensures
        s.remove_value(id).no_duplicates(),
        s.remove_value(id).len() == s.len() - 1,
        !s.remove_value(id).contains(id),
        forall|x: ConnectionId| x != id ==> (s.contains(x) <==> #[trigger] s.remove_value(id).contains(x)),
{
    s.index_of_first_ensures(id);
    let i = s.index_of_first(id)->0;
    let t = s.remove(i);
    assert(t == s.remove_value(id));
    assert forall|x: ConnectionId| x != id && s.contains(x) implies #[trigger] t.contains(x) by {
        let k = choose|k: int| 0 <= k < s.len() && s[k] == x;
        if k < i {
            assert(t[k] == x);
        } else {
            assert(t[k - 1] == x);
        }
    }
    assert forall|x: ConnectionId| #[trigger] t.contains(x) implies s.contains(x) by {
        let k = choose|k: int| 0 <= k < t.len() && t[k] == x;
        if k < i {
            assert(s[k] == x);
        } else {
            assert(s[k + 1] == x);
        }
    }
    if t.contains(id) {
        let k = choose|k: int| 0 <= k < t.len() && t[k] == id;
        if k < i {
            assert(s[k] == id);
        } else {
            assert(s[k + 1] == id);
        }
    }
}

proof fn lemma_push_no_dup(s: Seq<Player>, x: Player)
    requires
        s.no_duplicates(),
        !s.contains(x),
    ensures
        s.push(x).no_duplicates(),
{
    assert forall|i: int, j: int|
        0 <= i < s.len() + 1 && 0 <= j < s.len() + 1 && i != j implies s.push(x)[i] != s.push(x)[j] by {
        if i == s.len() {
            assert(s[j] == s.push(x)[j]);
        } else if j == s.len() {
            assert(s[i] == s.push(x)[i]);
        }
    }
}

/// Every message keeps the manager's state well formed.
pub proof fn lemma_next_wf(v: ManagerView, msg: ManagerMessage)
    requires
        v.wf(),
    ensures
        v.next(msg).0.wf(),
{
    let w = v.next(msg).0;
    if v.phase !is Stopped {
        match msg {
            ManagerMessage::Connect(id) => {
                if !(v.phase is Draining || v.registry.contains(id)) {
                    assert forall|h: ConnectionId| #[trigger] v.registry.contains(h) implies w.registry.contains(h) by {
                        let k = choose|k: int| 0 <= k < v.registry.len() && v.registry[k] == h;
                        assert(w.registry[k] == h);
                    }
                    assert(w.registry[v.registry.len() as int] == id);
                    if v.pool.len() > 0 {
                        let seat = v.pool.last();
                        assert(v.pool =~= w.pool.push(seat));
                        assert(w.pool.no_duplicates()) by {
                            assert forall|i: int, j: int|
                                0 <= i < w.pool.len() && 0 <= j < w.pool.len() && i != j implies w.pool[i] != w.pool[j] by {
                                assert(v.pool[i] == w.pool[i] && v.pool[j] == w.pool[j]);
                            }
                        }
                        assert forall|p: Player| #[trigger] w.pool.contains(p) <==> w.holder(p) is None by {
                            if v.pool.contains(p) && p != seat {
                                let k = choose|k: int| 0 <= k < v.pool.len() && v.pool[k] == p;
                                assert(w.pool[k] == p);
                            }
                            if w.pool.contains(p) {
                                let k = choose|k: int| 0 <= k < w.pool.len() && w.pool[k] == p;
                                assert(v.pool[k] == p);
                            }
                        }
                        assert(v.holder(Player::X) is Some ==> v.holder(Player::X) != Some(id));
                        assert(v.holder(Player::O) is Some ==> v.holder(Player::O) != Some(id));
                    }
                }
            },
            ManagerMessage::Disconnect(id, _) => {
                if v.registry.contains(id) {
                    lemma_remove_value(v.registry, id);
                    assert(v.holder(Player::X) is Some ==> v.registry.contains(v.holder(Player::X)->0));
                    assert(v.holder(Player::O) is Some ==> v.registry.contains(v.holder(Player::O)->0));
                    let pool1 = if v.holder_x == Some(id) { v.pool.push(Player::X) } else { v.pool };
                    assert(!v.pool.contains(Player::X) ==> v.holder(Player::X) is Some);
                    assert(!v.pool.contains(Player::O) ==> v.holder(Player::O) is Some);
                    assert forall|p: Player| #[trigger] pool1.contains(p) <==> (v.pool.contains(p) || (p == Player::X && v.holder_x == Some(id))) by {
                        if v.holder_x == Some(id) {
                            assert(pool1[v.pool.len() as int] == Player::X);
                            if v.pool.contains(p) {
                                let k = choose|k: int| 0 <= k < v.pool.len() && v.pool[k] == p;
                                assert(pool1[k] == p);
                            }
                            if pool1.contains(p) {
                                let k = choose|k: int| 0 <= k < pool1.len() && pool1[k] == p;
                                if k < v.pool.len() {
                                    assert(v.pool[k] == p);
                                }
                            }
                        }
                    }
                    assert forall|p: Player| #[trigger] w.pool.contains(p) <==> (pool1.contains(p) || (p == Player::O && v.holder_o == Some(id))) by {
                        if v.holder_o == Some(id) {
                            assert(w.pool[pool1.len() as int] == Player::O);
                            if pool1.contains(p) {
                                let k = choose|k: int| 0 <= k < pool1.len() && pool1[k] == p;
                                assert(w.pool[k] == p);
                            }
                            if w.pool.contains(p) {
                                let k = choose|k: int| 0 <= k < w.pool.len() && w.pool[k] == p;
                                if k < pool1.len() {
                                    assert(pool1[k] == p);
                                }
                            }
                        }
                    }
                    if v.holder_x == Some(id) {
                        lemma_push_no_dup(v.pool, Player::X);
                    }
                    if v.holder_o == Some(id) {
                        lemma_push_no_dup(pool1, Player::O);
                    }
                    assert(w.pool.contains(Player::X) <==> w.holder(Player::X) is None);
                    assert(w.pool.contains(Player::O) <==> w.holder(Player::O) is None);
                }
            },
            _ => {},
        }
    }
}

/// Seats are never lost nor doubled: the free seats and the held seats
/// together are exactly the two, and no seat is both free and held.
pub proof fn lemma_seats_partitioned(v: ManagerView)
    requires
        v.wf(),
    ensures
        v.pool.len() + v.n_assigned() == 2,
        forall|p: Player| !(v.pool.contains(p) && v.holder(p) is Some),
{
    if v.pool.len() >= 3 {
        let (a, b, c) = (v.pool[0], v.pool[1], v.pool[2]);
        assert(a != b && b != c && a != c);
        assert(false);
    } else if v.pool.len() == 2 {
        assert(v.pool[0] != v.pool[1]);
        assert(v.pool.contains(v.pool[0]) && v.pool.contains(v.pool[1]));
        assert(v.pool.contains(Player::X) && v.pool.contains(Player::O));
    } else if v.pool.len() == 1 {
        let q = v.pool[0];
        assert(v.pool.contains(q));
        assert(!v.pool.contains(q.spec_next()));
    } else {
        assert(!v.pool.contains(Player::X) && !v.pool.contains(Player::O));
    }
}

/// An exit request that finds no connection stops the manager at once, and
/// nothing is sent.
pub proof fn lemma_exit_when_empty(v: ManagerView)
    requires
        v.registry.len() == 0,
        v.phase !is Stopped,
    ensures
        v.next(ManagerMessage::Exit).0.phase == Phase::Stopped,
        v.next(ManagerMessage::Exit).1 == Seq::<Outgoing>::empty(),
{
}

/// While draining, the manager stops when the last connection leaves, and
/// not before.
pub proof fn lemma_drain_ends(v: ManagerView, id: ConnectionId, seat: Option<Player>)
    requires
        v.wf(),
        v.phase is Draining,
        v.registry.contains(id),
    ensures
        v.next(ManagerMessage::Disconnect(id, seat)).0.phase == (if v.registry.len() == 1 {
            Phase::Stopped
        } else {
            Phase::Draining
        }),
{
    lemma_remove_value(v.registry, id);
}

impl State {
    /// A running manager with a fresh game, no connections, and both seats
    /// free, X to be handed out first.
    fn new() -> (r: State)
        ensures
            r@.game.board.is_empty_board(),
            r@.game.current_player == Player::X,
            r@.registry == Seq::<ConnectionId>::empty(),
            r@.pool == seq![Player::O, Player::X],
            r@.holder_x is None,
            r@.holder_o is None,
            r@.phase == Phase::Running,
            r@.wf(),
    {
        let r = State {
            game: Game::new(),
            registry: Vec::new(),
            pool: vec![Player::O, Player::X],
            holder_x: None,
            holder_o: None,
            phase: Phase::Running,
        };
        assert(r@.registry =~= Seq::<ConnectionId>::empty());
        assert(r@.pool.contains(Player::X) && r@.pool.contains(Player::O)) by {
            assert(r@.pool[1] == Player::X);
            assert(r@.pool[0] == Player::O);
        }
        r
    }

    fn handle(&mut self, msg: ManagerMessage) -> (r: Vec<Outgoing>)
        requires
            old(self)@.wf(),
        ensures
            (final(self)@, r@) == old(self)@.next(msg),
            final(self)@.wf(),
    {
        proof {
            lemma_next_wf(self@, msg);
        }
        if self.phase == Phase::Stopped {
            return Vec::new();
        }
        match msg {
            ManagerMessage::Exit => {
                if self.registry.len() == 0 {
                    self.phase = Phase::Stopped;
                    Vec::new()
                } else {
                    self.phase = Phase::Draining;
                    send_to_each(&self.registry, ConnectionMessage::Exit)
                }
            },
            ManagerMessage::Connect(id) => {
                if self.phase == Phase::Draining {
                    return Vec::new();
                }
                if position(&self.registry, id).is_some() {
                    return Vec::new();
                }
                self.registry.push(id);
                let seat = self.pool.pop();
                match seat {
                    Some(Player::X) => self.holder_x = Some(id),
                    Some(Player::O) => self.holder_o = Some(id),
                    None => {},
                }
                proof {
                    if seat is Some {
                        assert(self@.pool =~= old(self)@.pool.drop_last());
                    }
                }
                vec![
                    Outgoing { to: id, msg: ConnectionMessage::Game(self.game) },
                    Outgoing { to: id, msg: ConnectionMessage::SetPlayer(seat) },
                ]
            },
            ManagerMessage::Disconnect(id, _) => {
                let i = match position(&self.registry, id) {
                    Some(i) => i,
                    None => return Vec::new(),
                };
                self.registry.remove(i);
                if self.holder_x == Some(id) {
                    self.holder_x = None;
                    self.pool.push(Player::X);
                }
                if self.holder_o == Some(id) {
                    self.holder_o = None;
                    self.pool.push(Player::O);
                }
                if self.phase == Phase::Draining && self.registry.len() == 0 {
                    self.phase = Phase::Stopped;
                }
                proof {
                    old(self)@.registry.index_of_first_ensures(id);
                }
                Vec::new()
            },
            ManagerMessage::Move(p, req) => {
                if self.game.board.winner().is_some() {
                    return Vec::new();
                }
                match self.game.try_move(p, req.row, req.col) {
                    Ok(()) => send_to_each(&self.registry, ConnectionMessage::Game(self.game)),
                    Err(_) => Vec::new(),
                }
            },
            ManagerMessage::Broadcast(m) => send_to_each(&self.registry, m),
        }
    }

    fn duplicate(&self) -> (r: State)
        ensures
            r@ == self@,
    {
        State {
            game: self.game,
            registry: self.registry.clone(),
            pool: self.pool.clone(),
            holder_x: self.holder_x,
            holder_o: self.holder_o,
            phase: self.phase,
        }
    }
}

/// The manager: its state is always well formed.
pub struct Manager {
    state: State,
}

impl Manager {
    #[verifier::type_invariant]
    spec fn inv(self) -> bool {
        self.state@.wf()
    }
}

impl View for Manager {
    type V = ManagerView;

    closed spec fn view(&self) -> ManagerView {
        self.state@
    }
}

impl Manager {
    /// A running manager with a fresh game, no connections, and both seats
    /// free, X to be handed out first.
    pub fn new() -> (r: Manager)
        ensures
            r@.game.board.is_empty_board(),
            r@.game.current_player == Player::X,
            r@.registry == Seq::<ConnectionId>::empty(),
            r@.pool == seq![Player::O, Player::X],
            r@.holder_x is None,
            r@.holder_o is None,
            r@.phase == Phase::Running,
            r@.wf(),
    {
        Manager { state: State::new() }
    }

    /// The current game.
    pub fn game(&self) -> (r: Game)
        ensures
            r == self@.game,
    {
        self.state.game
    }

    pub fn phase(&self) -> (r: Phase)
        ensures
            r == self@.phase,
    {
        self.state.phase
    }

    /// Whether the mailbox loop should end.
    pub fn is_stopped(&self) -> (r: bool)
        ensures
            r == (self@.phase is Stopped),
    {
        self.state.phase == Phase::Stopped
    }

    /// How many connections are registered.
    pub fn connection_count(&self) -> (r: usize)
        ensures
            r == self@.registry.len(),
    {
        self.state.registry.len()
    }

    /// Whether connection `id` is registered.
    pub fn is_registered(&self, id: ConnectionId) -> (r: bool)
        ensures
            r == self@.registry.contains(id),
    {
        position(&self.state.registry, id).is_some()
    }

    /// The free seats; the last one is handed out next.
    pub fn free_seats(&self) -> (r: Vec<Player>)
        ensures
            r@ == self@.pool,
    {
        self.state.pool.clone()
    }

    /// The seat that connection `id` holds, if any.
    pub fn seat_of(&self, id: ConnectionId) -> (r: Option<Player>)
        ensures
            r == (if self@.holder_x == Some(id) {
                Some(Player::X)
            } else if self@.holder_o == Some(id) {
                Some(Player::O)
            } else {
                None::<Player>
            }),
    {
        if self.state.holder_x == Some(id) {
            Some(Player::X)
        } else if self.state.holder_o == Some(id) {
            Some(Player::O)
        } else {
            None
        }
    }

    /// Takes one message: updates the state and returns the messages to
    /// deliver, in order. Once stopped, it does nothing.
    pub fn handle(&mut self, msg: ManagerMessage) -> (r: Vec<Outgoing>)
        ensures
            (final(self)@, r@) == old(self)@.next(msg),
            final(self)@.wf(),
    {
        proof {
            use_type_invariant(&*self);
        }
        let mut next = self.state.duplicate();
        let out = next.handle(msg);
        self.state = next;
        out
    }
}

} // verus!

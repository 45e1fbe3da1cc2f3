//! Draining of nodes: the moves of their volumes to other nodes.

use crate::text::same_text;
use crate::types::RaftNodeId;
use vstd::prelude::*;

verus! {

/// The life cycle of a move.
#[derive(Clone, Copy, Debug, PartialEq, Eq, Structural)]
pub enum DrainMoveState {
    Pending,
    Migrating,
    Completed,
    Failed,
}

impl DrainMoveState {
    /// The state's name.
    pub open spec fn text(self) -> Seq<char> {
        match self {
            DrainMoveState::Pending => "pending"@,
            DrainMoveState::Migrating => "migrating"@,
            DrainMoveState::Completed => "completed"@,
            DrainMoveState::Failed => "failed"@,
        }
    }

    /// The state's name.
    pub fn to_text(&self) -> (s: String)
        ensures
            s@ == self.text(),
    {
        let s = match *self {
            DrainMoveState::Pending => "pending",
            DrainMoveState::Migrating => "migrating",
            DrainMoveState::Completed => "completed",
            DrainMoveState::Failed => "failed",
        };
        s.to_owned()
    }
}

/// The move of a volume off a node.
#[derive(Clone, Debug)]
pub struct DrainMove {
    pub volume_name: String,
    pub source_node: RaftNodeId,
    pub target_node: RaftNodeId,
    pub state: DrainMoveState,
}

/// How far the draining of a node has got.
#[derive(Clone, Copy, Debug, PartialEq, Eq, Structural)]
pub struct DrainProgress {
    pub node_id: RaftNodeId,
    pub total_volumes: usize,
    pub completed: usize,
    pub failed: usize,
    pub in_progress: usize,
}

/// The position of the first move of a volume that is in a state, or the number of moves.
pub open spec fn first_in_state(
    moves: Seq<DrainMove>,
    name: Seq<char>,
    state: DrainMoveState,
    from: int,
) -> int
    decreases moves.len() - from,
{
    if from >= moves.len() || (moves[from].volume_name@ == name && moves[from].state == state) {
        from
    } else {
        first_in_state(moves, name, state, from + 1)
    }
}

/// The moves after the first move of a volume that is in one state has been put into
/// another one; unchanged where there is none.
pub open spec fn advanced(
    moves: Seq<DrainMove>,
    name: Seq<char>,
    state: DrainMoveState,
    next: DrainMoveState,
) -> Seq<DrainMove> {
    let i = first_in_state(moves, name, state, 0);
    if i < moves.len() {
        moves.update(i, DrainMove { state: next, ..moves[i] })
    } else {
        moves
    }
}

/// How many moves off a node are in a state.
pub open spec fn count_in_state(
    moves: Seq<DrainMove>,
    node: RaftNodeId,
    state: DrainMoveState,
) -> nat
    decreases moves.len(),
{
    if moves.len() == 0 {
        0
    } else {
        let m = moves.last();
        count_in_state(moves.drop_last(), node, state) + (if m.source_node == node && m.state
            == state {
            1nat
        } else {
            0nat
        })
    }
}

/// How many moves off a node there are.
pub open spec fn count_moves(moves: Seq<DrainMove>, node: RaftNodeId) -> nat
    decreases moves.len(),
{
    if moves.len() == 0 {
        0
    } else {
        count_moves(moves.drop_last(), node) + (if moves.last().source_node == node {
            1nat
        } else {
            0nat
        })
    }
}

/// Every move off a node is in exactly one state.
pub proof fn moves_are_in_one_state(moves: Seq<DrainMove>, node: RaftNodeId)
    ensures
        count_moves(moves, node) == count_in_state(moves, node, DrainMoveState::Pending)
            + count_in_state(moves, node, DrainMoveState::Migrating) + count_in_state(
            moves,
            node,
            DrainMoveState::Completed,
        ) + count_in_state(moves, node, DrainMoveState::Failed),
        count_moves(moves, node) <= moves.len(),
    decreases moves.len(),
{
    if moves.len() > 0 {
        moves_are_in_one_state(moves.drop_last(), node);
    }
}

/// Whether every move off a node is over.
pub open spec fn all_over(moves: Seq<DrainMove>, node: RaftNodeId) -> bool {
    forall|i: int|
        0 <= i < moves.len() && (#[trigger] moves[i]).source_node == node ==> moves[i].state
            is Completed || moves[i].state is Failed
}

/// The finished moves of a node are all its moves exactly where every move is over.
pub proof fn drain_is_complete_when_all_over(moves: Seq<DrainMove>, node: RaftNodeId)
    ensures
        count_in_state(moves, node, DrainMoveState::Completed) + count_in_state(
            moves,
            node,
            DrainMoveState::Failed,
        ) == count_moves(moves, node) <==> all_over(moves, node),
    decreases moves.len(),
{
    if moves.len() > 0 {
        let front = moves.drop_last();
        drain_is_complete_when_all_over(front, node);
        moves_are_in_one_state(front, node);
        moves_are_in_one_state(moves, node);
        if all_over(moves, node) {
            assert forall|i: int| 0 <= i < front.len() && (
            #[trigger] front[i]).source_node == node implies front[i].state is Completed
                || front[i].state is Failed by {
                assert(moves[i] == front[i]);
            }
            assert(moves[moves.len() - 1] == moves.last());
        }
        if all_over(front, node) && !(moves.last().source_node == node && !(
        moves.last().state is Completed || moves.last().state is Failed)) {
            assert forall|i: int| 0 <= i < moves.len() && (
            #[trigger] moves[i]).source_node == node implies moves[i].state is Completed
                || moves[i].state is Failed by {
                if i < front.len() {
                    assert(front[i] == moves[i]);
                }
            }
        }
    }
}

/// The moves of all nodes that are being drained.
#[derive(Clone, Debug)]
pub struct DrainEngine {
    pub moves: Vec<DrainMove>,
}

impl Default for DrainEngine {
    fn default() -> (r: Self)
        ensures
            r.moves@ == Seq::<DrainMove>::empty(),
    {
        Self::new()
    }
}

impl DrainEngine {
    /// No moves.
    pub fn new() -> (r: Self)
        ensures
            r.moves@ == Seq::<DrainMove>::empty(),
    {
        DrainEngine { moves: Vec::new() }
    }

    /// Adds a move that is still to be started.
    pub fn enqueue_move(
        &mut self,
        volume_name: String,
        source_node: RaftNodeId,
        target_node: RaftNodeId,
    )
        ensures
            final(self).moves@ == old(self).moves@.push(
                DrainMove {
                    volume_name,
                    source_node,
                    target_node,
                    state: DrainMoveState::Pending,
                },
            ),
    {
        self.moves.push(
            DrainMove { volume_name, source_node, target_node, state: DrainMoveState::Pending },
        );
    }

    fn advance(&mut self, volume_name: &str, state: DrainMoveState, next: DrainMoveState) -> (r:
        bool)
        ensures
            r == (first_in_state(old(self).moves@, volume_name@, state, 0) < old(
                self,
            ).moves@.len()),
            final(self).moves@ == advanced(old(self).moves@, volume_name@, state, next),
    {
        let mut i: usize = 0;
        while i < self.moves.len()
            invariant
                i <= self.moves@.len(),
                self.moves@ == old(self).moves@,
                first_in_state(self.moves@, volume_name@, state, 0) == first_in_state(
                    self.moves@,
                    volume_name@,
                    state,
                    i as int,
                ),
            decreases self.moves@.len() - i,
        {
            if same_text(self.moves[i].volume_name.as_str(), volume_name) && self.moves[i].state
                == state {
                self.moves[i].state = next;
                assert(self.moves@ =~= advanced(old(self).moves@, volume_name@, state, next));
                return true;
            }
            i = i + 1;
        }
        false
    }

    /// Starts a pending move of the volume; tells whether there was one.
    pub fn start_migrating(&mut self, volume_name: &str) -> (r: bool)
        ensures
            r == (first_in_state(old(self).moves@, volume_name@, DrainMoveState::Pending, 0) < old(
                self,
            ).moves@.len()),
            final(self).moves@ == advanced(
                old(self).moves@,
                volume_name@,
                DrainMoveState::Pending,
                DrainMoveState::Migrating,
            ),
    {
        self.advance(volume_name, DrainMoveState::Pending, DrainMoveState::Migrating)
    }

    /// Completes a started move of the volume; tells whether there was one.
    pub fn complete_move(&mut self, volume_name: &str) -> (r: bool)
        ensures
            r == (first_in_state(old(self).moves@, volume_name@, DrainMoveState::Migrating, 0)
                < old(self).moves@.len()),
            final(self).moves@ == advanced(
                old(self).moves@,
                volume_name@,
                DrainMoveState::Migrating,
                DrainMoveState::Completed,
            ),
    {
        self.advance(volume_name, DrainMoveState::Migrating, DrainMoveState::Completed)
    }

    /// Fails a started move of the volume; tells whether there was one.
    pub fn fail_move(&mut self, volume_name: &str) -> (r: bool)
        ensures
            r == (first_in_state(old(self).moves@, volume_name@, DrainMoveState::Migrating, 0)
                < old(self).moves@.len()),
            final(self).moves@ == advanced(
                old(self).moves@,
                volume_name@,
                DrainMoveState::Migrating,
                DrainMoveState::Failed,
            ),
    {
        self.advance(volume_name, DrainMoveState::Migrating, DrainMoveState::Failed)
    }

    /// How far the draining of a node has got.
    pub fn progress(&self, node_id: RaftNodeId) -> (r: DrainProgress)
        ensures
            r.node_id == node_id,
            r.total_volumes == count_moves(self.moves@, node_id),
            r.completed == count_in_state(self.moves@, node_id, DrainMoveState::Completed),
            r.failed == count_in_state(self.moves@, node_id, DrainMoveState::Failed),
            r.in_progress == count_in_state(self.moves@, node_id, DrainMoveState::Migrating),
    {
        let mut total: usize = 0;
        let mut completed: usize = 0;
        let mut failed: usize = 0;
        let mut in_progress: usize = 0;
        let mut i: usize = 0;
        while i < self.moves.len()
            invariant
                i <= self.moves@.len(),
                total <= i,
                completed <= i,
                failed <= i,
                in_progress <= i,
                total == count_moves(self.moves@.take(i as int), node_id),
                completed == count_in_state(
                    self.moves@.take(i as int),
                    node_id,
                    DrainMoveState::Completed,
                ),
                failed == count_in_state(
                    self.moves@.take(i as int),
                    node_id,
                    DrainMoveState::Failed,
                ),
                in_progress == count_in_state(
                    self.moves@.take(i as int),
                    node_id,
                    DrainMoveState::Migrating,
                ),
            decreases self.moves@.len() - i,
        {
            let m = &self.moves[i];
            if m.source_node == node_id {
                total = total + 1;
                match m.state {
                    DrainMoveState::Completed => {
                        completed = completed + 1;
                    },
                    DrainMoveState::Failed => {
                        failed = failed + 1;
                    },
                    DrainMoveState::Migrating => {
                        in_progress = in_progress + 1;
                    },
                    DrainMoveState::Pending => {},
                }
            }
            i = i + 1;
            assert(self.moves@.take(i as int).drop_last() =~= self.moves@.take(i - 1));
        }
        assert(self.moves@.take(self.moves@.len() as int) =~= self.moves@);
        DrainProgress { node_id, total_volumes: total, completed, failed, in_progress }
    }

    /// Whether the draining of a node is complete: it has moves, and all of them are over.
    pub fn is_drain_complete(&self, node_id: RaftNodeId) -> (r: bool)
        ensures
            r == (count_moves(self.moves@, node_id) > 0 && all_over(self.moves@, node_id)),
            r <==> {
                &&& exists|i: int|
                    0 <= i < self.moves@.len() && (#[trigger] self.moves@[i]).source_node == node_id
                &&& forall|i: int|
                    0 <= i < self.moves@.len() && (#[trigger] self.moves@[i]).source_node == node_id
                        ==> self.moves@[i].state is Completed || self.moves@[i].state is Failed
            },
    {
        let progress = self.progress(node_id);
        proof {
            moves_are_in_one_state(self.moves@, node_id);
            drain_is_complete_when_all_over(self.moves@, node_id);
            lemma_has_moves(self.moves@, node_id);
        }
        progress.total_volumes > 0 && progress.completed + progress.failed
            == progress.total_volumes
    }

    /// All moves.
    pub fn all_moves(&self) -> (r: &Vec<DrainMove>)
        ensures
            r@ == self.moves@,
    {
        &self.moves
    }

    /// The number of moves.
    pub fn move_count(&self) -> (r: usize)
        ensures
            r == self.moves@.len(),
    {
        self.moves.len()
    }
}

/// A step of a volume's move takes the first of its moves that is in the right state, and no
/// other; it changes that move's state and nothing else of it.
pub proof fn one_move_takes_the_step(
    moves: Seq<DrainMove>,
    name: Seq<char>,
    state: DrainMoveState,
    next: DrainMoveState,
)
    ensures
        ({
            let i = first_in_state(moves, name, state, 0);
            let after = advanced(moves, name, state, next);
            &&& after.len() == moves.len()
            &&& 0 <= i <= moves.len()
            &&& i < moves.len() <==> exists|k: int|
                0 <= k < moves.len() && (#[trigger] moves[k]).volume_name@ == name && moves[k].state
                    == state
            &&& forall|k: int|
                0 <= k < i ==> (#[trigger] moves[k]).volume_name@ != name || moves[k].state != state
            &&& i < moves.len() ==> {
                &&& moves[i].volume_name@ == name
                &&& moves[i].state == state
                &&& after[i].state == next
                &&& after[i].volume_name == moves[i].volume_name
                &&& after[i].source_node == moves[i].source_node
                &&& after[i].target_node == moves[i].target_node
            }
            &&& forall|k: int| 0 <= k < moves.len() && k != i ==> #[trigger] after[k] == moves[k]
        }),
{
    lemma_first_in_state_is_first(moves, name, state, 0);
}

proof fn lemma_first_in_state_is_first(
    moves: Seq<DrainMove>,
    name: Seq<char>,
    state: DrainMoveState,
    from: int,
)
    requires
        0 <= from <= moves.len(),
    ensures
        from <= first_in_state(moves, name, state, from) <= moves.len(),
        forall|k: int|
            from <= k < first_in_state(moves, name, state, from) ==> (
            #[trigger] moves[k]).volume_name@ != name || moves[k].state != state,
        first_in_state(moves, name, state, from) < moves.len() ==> moves[first_in_state(
            moves,
            name,
            state,
            from,
        )].volume_name@ == name && moves[first_in_state(moves, name, state, from)].state == state,
    decreases moves.len() - from,
{
    if from < moves.len() && !(moves[from].volume_name@ == name && moves[from].state == state) {
        lemma_first_in_state_is_first(moves, name, state, from + 1);
    }
}

/// The progress of a node's drain counts its own moves, each by the state it is in.
pub proof fn progress_counts_the_moves(
    moves: Seq<DrainMove>,
    node: RaftNodeId,
    state: DrainMoveState,
)
    ensures
        count_moves(moves, node) == moves.filter(|m: DrainMove| m.source_node == node).len(),
        count_in_state(moves, node, state) == moves.filter(
            |m: DrainMove| m.source_node == node && m.state == state,
        ).len(),
    decreases moves.len(),
{
    reveal(Seq::filter);
    if moves.len() > 0 {
        progress_counts_the_moves(moves.drop_last(), node, state);
    }
}

proof fn lemma_has_moves(moves: Seq<DrainMove>, node: RaftNodeId)
    ensures
        count_moves(moves, node) > 0 <==> exists|i: int|
            0 <= i < moves.len() && (#[trigger] moves[i]).source_node == node,
    decreases moves.len(),
{
    if moves.len() > 0 {
        let front = moves.drop_last();
        let last = moves.len() - 1;
        lemma_has_moves(front, node);
        assert(moves.last() == moves[last]);
        if exists|i: int| 0 <= i < front.len() && (#[trigger] front[i]).source_node == node {
            let i = choose|i: int|
                0 <= i < front.len() && (#[trigger] front[i]).source_node == node;
            assert(moves[i] == front[i]);
        }
        if exists|i: int| 0 <= i < moves.len() && (#[trigger] moves[i]).source_node == node {
            let i = choose|i: int|
                0 <= i < moves.len() && (#[trigger] moves[i]).source_node == node;
            if i < last {
                assert(front[i] == moves[i]);
            }
        }
    }
}

} // verus!

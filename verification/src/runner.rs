//! The dialog runner: a state machine over the model's node variants. It
//! holds the current position and the accumulated score, advances through
//! narration pages, applies selected answers, and stops at an end node or
//! on a dangling node reference.

use vstd::prelude::*;
use vstd::string::StringExecFns;
use crate::model::{
    node_refs_ok, valid_model, Answer, AnswerV, DialogFile, DialogNode, ModelV, NodeV,
};

verus! {

/// Where the runner stands.
pub enum Phase {
    /// At a narration node (call or end); `page_idx` pages acknowledged so far.
    Paging { node: String, page_idx: usize },
    /// At a response node, waiting for a selection.
    Choosing { node: String },
    /// Reached an end node and showed all of its pages.
    Finished { node: String },
    /// The start node name did not resolve; nothing was traversed.
    FailedStart,
    /// A `next` reference did not resolve during traversal.
    FailedNext { missing: String },
}

/// Abstract view of a `Phase`.
pub enum PhaseS {
    Paging { node: Seq<char>, page_idx: int },
    Choosing { node: Seq<char> },
    Finished { node: Seq<char> },
    FailedStart,
    FailedNext { missing: Seq<char> },
}

impl View for Phase {
    type V = PhaseS;

    open spec fn view(&self) -> PhaseS {
        match self {
            Phase::Paging { node, page_idx } => PhaseS::Paging {
                node: node@,
                page_idx: *page_idx as int,
            },
            Phase::Choosing { node } => PhaseS::Choosing { node: node@ },
            Phase::Finished { node } => PhaseS::Finished { node: node@ },
            Phase::FailedStart => PhaseS::FailedStart,
            Phase::FailedNext { missing } => PhaseS::FailedNext { missing: missing@ },
        }
    }
}

/// Abstract runner state: position and score.
pub struct StateS {
    pub phase: PhaseS,
    pub score: int,
}

/// The pages of a narration node (empty for a response node).
pub open spec fn pages_of(n: NodeV) -> Seq<Seq<char>> {
    match n {
        NodeV::Call { pages, .. } => pages,
        NodeV::End { pages } => pages,
        NodeV::Response { .. } => Seq::empty(),
    }
}

/// The answers of a response node (empty for a narration node).
pub open spec fn answers_of(n: NodeV) -> Seq<AnswerV> {
    match n {
        NodeV::Response { answers } => answers,
        _ => Seq::empty(),
    }
}

/// The phase on arrival at the node named `name`: paging for a narration
/// node, choosing for a response node, failure when the name does not
/// resolve.
pub open spec fn enter(m: ModelV, name: Seq<char>) -> PhaseS {
    if !m.nodes.contains_key(name) {
        PhaseS::FailedNext { missing: name }
    } else {
        match m.nodes[name] {
            NodeV::Response { .. } => PhaseS::Choosing { node: name },
            _ => PhaseS::Paging { node: name, page_idx: 0 },
        }
    }
}

/// The initial state: the start node entered (or the start failure), score
/// zero.
pub open spec fn init_state(m: ModelV) -> StateS {
    StateS {
        phase: if m.nodes.contains_key(m.start) {
            enter(m, m.start)
        } else {
            PhaseS::FailedStart
        },
        score: 0,
    }
}

/// The phase after one advance in a paging phase: the next page if one is
/// left, else the call node's transition or the end node's termination.
pub open spec fn advance_phase(m: ModelV, node: Seq<char>, page_idx: int) -> PhaseS {
    let n = m.nodes[node];
    if page_idx < pages_of(n).len() {
        PhaseS::Paging { node, page_idx: page_idx + 1 }
    } else {
        match n {
            NodeV::Call { next, .. } => enter(m, next),
            NodeV::End { .. } => PhaseS::Finished { node },
            NodeV::Response { .. } => PhaseS::Choosing { node },
        }
    }
}

/// The state after offering the 1-based selection `choice` in a choosing
/// phase at `node` with score `score`: a valid selection adds the chosen
/// answer's value and enters its `next` node; an invalid one changes
/// nothing.
pub open spec fn select_state(m: ModelV, node: Seq<char>, score: int, choice: int) -> StateS {
    let answers = answers_of(m.nodes[node]);
    if 1 <= choice <= answers.len() {
        StateS { phase: enter(m, answers[choice - 1].next), score: score + answers[choice - 1].value }
    } else {
        StateS { phase: PhaseS::Choosing { node }, score }
    }
}

/// Consistency of a phase with a model: an active phase names a node that
/// exists with the matching variant and a page index within bounds; a
/// finished phase stands at an end node; a failed phase names a key that is
/// really absent.
pub open spec fn phase_ok(m: ModelV, p: PhaseS) -> bool {
    match p {
        PhaseS::Paging { node, page_idx } => m.nodes.contains_key(node) && !(m.nodes[node]
            is Response) && 0 <= page_idx <= pages_of(m.nodes[node]).len(),
        PhaseS::Choosing { node } => m.nodes.contains_key(node) && m.nodes[node] is Response,
        PhaseS::Finished { node } => m.nodes.contains_key(node) && m.nodes[node] is End,
        PhaseS::FailedStart => !m.nodes.contains_key(m.start),
        PhaseS::FailedNext { missing } => !m.nodes.contains_key(missing),
    }
}

/// Whether the scripted machine can step no further: the phase is terminal,
/// or a selection is awaited and the script is spent.
pub open spec fn script_stopped(sels: Seq<usize>, st: StateS, used: int) -> bool {
    ||| st.phase is Finished
    ||| st.phase is FailedStart
    ||| st.phase is FailedNext
    ||| (st.phase is Choosing && used >= sels.len())
}

/// One scripted step: a paging phase advances (acknowledgements consume no
/// script entry), a choosing phase consumes the next script entry as the
/// selection, and a stopped state stays as it is.
pub open spec fn script_step(m: ModelV, sels: Seq<usize>, st: StateS, used: int) -> (StateS, int) {
    match st.phase {
        PhaseS::Paging { node, page_idx } => (
            StateS { phase: advance_phase(m, node, page_idx), score: st.score },
            used,
        ),
        PhaseS::Choosing { node } => if used < sels.len() {
            (select_state(m, node, st.score, sels[used] as int), used + 1)
        } else {
            (st, used)
        },
        _ => (st, used),
    }
}

/// The scripted machine run for `n` steps from the state `st` with `used`
/// script entries already consumed.
pub open spec fn script_run_from(
    m: ModelV,
    sels: Seq<usize>,
    st: StateS,
    used: int,
    n: nat,
) -> (StateS, int)
    decreases n,
{
    if n == 0 {
        (st, used)
    } else {
        let (st2, used2) = script_step(m, sels, st, used);
        script_run_from(m, sels, st2, used2, (n - 1) as nat)
    }
}

/// The scripted machine run for `n` steps from the initial state.
pub open spec fn script_run(m: ModelV, sels: Seq<usize>, n: nat) -> (StateS, int) {
    script_run_from(m, sels, init_state(m), 0, n)
}

/// Running `a + b` steps is running `a` steps and then `b` more.
proof fn lemma_run_compose(m: ModelV, sels: Seq<usize>, st: StateS, used: int, a: nat, b: nat)
    ensures
        ({
            let (st2, used2) = script_run_from(m, sels, st, used, a);
            script_run_from(m, sels, st, used, a + b) == script_run_from(m, sels, st2, used2, b)
        }),
    decreases a,
{
    if a > 0 {
        let (st1, used1) = script_step(m, sels, st, used);
        lemma_run_compose(m, sels, st1, used1, (a - 1) as nat, b);
        assert(script_run_from(m, sels, st, used, a + b) == script_run_from(
            m,
            sels,
            st1,
            used1,
            ((a + b) - 1) as nat,
        ));
    }
}

/// Every answer value in the view of an executable model lies in the range
/// of the stored 8-bit values.
pub open spec fn values_in_range(m: ModelV) -> bool {
    forall|k: Seq<char>, i: int|
        #![trigger answers_of(m.nodes[k])[i]]
        m.nodes.contains_key(k) && 0 <= i < answers_of(m.nodes[k]).len() ==> -128 <= answers_of(
            m.nodes[k],
        )[i].value <= 127
}

/// The view of a `DialogFile` has all answer values in range, because they
/// are stored as 8-bit integers.
pub proof fn lemma_values_in_range(df: &DialogFile)
    requires
        df.wf(),
    ensures
        values_in_range(df@),
{
    let m = df@;
    assert forall|k: Seq<char>, i: int|
        m.nodes.contains_key(k) && 0 <= i < answers_of(m.nodes[k]).len() implies -128 <= #[trigger]
    answers_of(m.nodes[k])[i].value <= 127 by {
        df.lemma_node_view_from_entry(k);
        let nd = choose|nd: DialogNode| m.nodes[k] == nd@;
        match nd {
            DialogNode::ResponseNode { answers } => {
                assert(answers_of(m.nodes[k]) == answers@.map_values(|a: Answer| a@));
                assert(answers_of(m.nodes[k])[i] == answers@[i]@);
            },
            _ => {
                assert(answers_of(m.nodes[k]).len() == 0);
            },
        }
    }
}

/// The runner's mutable state: the current phase and the running score.
pub struct Runner {
    pub phase: Phase,
    pub score: i128,
}

impl View for Runner {
    type V = StateS;

    open spec fn view(&self) -> StateS {
        StateS { phase: self.phase@, score: self.score as int }
    }
}

/// Resolves `name` and builds the phase on arrival at it.
fn enter_node(df: &DialogFile, name: String) -> (r: Phase)
    requires
        df.wf(),
    ensures
        r@ == enter(df@, name@),
        phase_ok(df@, r@),
{
    match df.get_node(&name) {
        Some(DialogNode::ResponseNode { .. }) => Phase::Choosing { node: name },
        Some(_) => Phase::Paging { node: name, page_idx: 0 },
        None => Phase::FailedNext { missing: name },
    }
}

impl Runner {
    /// Consistency with a model.
    pub open spec fn inv(&self, m: ModelV) -> bool {
        phase_ok(m, self.phase@)
    }

    /// Starts a run: resolves the model's start node and stands at it with
    /// score zero. A missing start node is the one failure reported before
    /// any traversal.
    pub fn start(df: &DialogFile) -> (r: Runner)
        requires
            df.wf(),
        ensures
            r@ == init_state(df@),
            r.inv(df@),
    {
        let name = df.start_node().clone();
        match df.get_node(&name) {
            Some(DialogNode::ResponseNode { .. }) => Runner {
                phase: Phase::Choosing { node: name },
                score: 0,
            },
            Some(_) => Runner { phase: Phase::Paging { node: name, page_idx: 0 }, score: 0 },
            None => Runner { phase: Phase::FailedStart, score: 0 },
        }
    }

    /// The narration page currently on display: the text of page
    /// `page_idx` of the current node while one is left, nothing once all
    /// pages were acknowledged or the runner is not paging.
    pub fn current_page<'a>(&self, df: &'a DialogFile) -> (r: Option<&'a String>)
        requires
            df.wf(),
            self.inv(df@),
        ensures
            match r {
                Some(text) => self.phase@ matches PhaseS::Paging { node, page_idx }
                    && page_idx < pages_of(df@.nodes[node]).len() && text@ == pages_of(
                    df@.nodes[node],
                )[page_idx],
                None => self.phase@ matches PhaseS::Paging { node, page_idx } ==> page_idx
                    == pages_of(df@.nodes[node]).len(),
            },
    {
        match &self.phase {
            Phase::Paging { node, page_idx } => {
                match df.get_node(node) {
                    Some(DialogNode::CallNode { npc_pages, .. }) => {
                        if *page_idx < npc_pages.len() {
                            Some(&npc_pages[*page_idx].text)
                        } else {
                            None
                        }
                    },
                    Some(DialogNode::EndNode { npc_pages }) => {
                        if *page_idx < npc_pages.len() {
                            Some(&npc_pages[*page_idx].text)
                        } else {
                            None
                        }
                    },
                    _ => {
                        proof {
                            assert(false);
                        }
                        None
                    },
                }
            },
            _ => None,
        }
    }

    /// The answers offered by the response node the runner is choosing at,
    /// nothing when it is not choosing.
    pub fn current_answers<'a>(&self, df: &'a DialogFile) -> (r: Option<&'a Vec<Answer>>)
        requires
            df.wf(),
            self.inv(df@),
        ensures
            match r {
                Some(answers) => self.phase@ matches PhaseS::Choosing { node } && answers@
                    .map_values(|a: Answer| a@) == answers_of(df@.nodes[node]),
                None => !(self.phase@ is Choosing),
            },
    {
        match &self.phase {
            Phase::Choosing { node } => {
                match df.get_node(node) {
                    Some(DialogNode::ResponseNode { answers }) => Some(answers),
                    _ => {
                        proof {
                            assert(false);
                        }
                        None
                    },
                }
            },
            _ => None,
        }
    }

    /// Acknowledges the current narration step: moves to the next page of
    /// the current node while one is left; after the last page, follows a
    /// call node's `next` reference or finishes at an end node. The score
    /// never changes.
    pub fn advance(&mut self, df: &DialogFile)
        requires
            df.wf(),
            old(self).inv(df@),
            old(self).phase@ is Paging,
        ensures
            final(self).inv(df@),
            final(self).phase@ == advance_phase(
                df@,
                old(self).phase@->Paging_node,
                old(self).phase@->Paging_page_idx,
            ),
            final(self).score == old(self).score,
    {
        let (node, page_idx) = match &self.phase {
            Phase::Paging { node, page_idx } => (node.clone(), *page_idx),
            _ => {
                proof {
                    assert(false);
                }
                (String::new(), 0)
            },
        };
        match df.get_node(&node) {
            Some(DialogNode::CallNode { npc_pages, next }) => {
                if page_idx < npc_pages.len() {
                    self.phase = Phase::Paging { node, page_idx: page_idx + 1 };
                } else {
                    let next = next.clone();
                    self.phase = enter_node(df, next);
                }
            },
            Some(DialogNode::EndNode { npc_pages }) => {
                if page_idx < npc_pages.len() {
                    self.phase = Phase::Paging { node, page_idx: page_idx + 1 };
                } else {
                    self.phase = Phase::Finished { node };
                }
            },
            _ => {
                proof {
                    assert(false);
                }
            },
        }
    }

    /// Offers the 1-based selection `choice` at a response node. A valid
    /// selection adds exactly the chosen answer's value to the score and
    /// moves to the chosen answer's `next` node, and the call returns true.
    /// A selection outside `[1, answers.len()]` leaves the score and the
    /// position unchanged and returns false, so the caller prompts again.
    pub fn select(&mut self, df: &DialogFile, choice: usize) -> (ok: bool)
        requires
            df.wf(),
            old(self).inv(df@),
            old(self).phase@ is Choosing,
            i128::MIN + 128 <= old(self).score <= i128::MAX - 128,
        ensures
            final(self).inv(df@),
            final(self)@ == select_state(
                df@,
                old(self).phase@->Choosing_node,
                old(self).score as int,
                choice as int,
            ),
            ok == (1 <= choice as int <= answers_of(
                df@.nodes[old(self).phase@->Choosing_node],
            ).len()),
            !ok ==> final(self)@ == old(self)@ && final(self).phase == old(self).phase,
    {
        let node = match &self.phase {
            Phase::Choosing { node } => node.clone(),
            _ => {
                proof {
                    assert(false);
                }
                String::new()
            },
        };
        match df.get_node(&node) {
            Some(DialogNode::ResponseNode { answers }) => {
                if 1 <= choice && choice <= answers.len() {
                    let a = &answers[choice - 1];
                    self.score = self.score + (a.value as i128);
                    let next = a.next.clone();
                    self.phase = enter_node(df, next);
                    true
                } else {
                    false
                }
            },
            _ => {
                proof {
                    assert(false);
                }
                false
            },
        }
    }
}

/// Whether every node reference of `n` has a rank strictly below `r`.
pub open spec fn node_rank_ok(rank: Map<Seq<char>, nat>, n: NodeV, r: nat) -> bool {
    match n {
        NodeV::Call { next, .. } => rank.contains_key(next) && rank[next] < r,
        NodeV::Response { answers } => forall|i: int|
            0 <= i < answers.len() ==> rank.contains_key(#[trigger] answers[i].next) && rank[answers[i].next] < r,
        NodeV::End { .. } => true,
    }
}

/// A witness that the node graph is acyclic: a rank for every node that
/// strictly drops along every reference.
pub open spec fn ranked(m: ModelV, rank: Map<Seq<char>, nat>) -> bool {
    forall|k: Seq<char>|
        #[trigger] m.nodes.contains_key(k) ==> rank.contains_key(k) && node_rank_ok(
            rank,
            m.nodes[k],
            rank[k],
        )
}

/// The rank of the node an active phase stands at, above the terminal
/// phases' rank of zero.
pub open spec fn phase_rank(rank: Map<Seq<char>, nat>, p: PhaseS) -> nat {
    match p {
        PhaseS::Paging { node, .. } => rank[node] + 1,
        PhaseS::Choosing { node } => rank[node] + 1,
        _ => 0,
    }
}

/// How many pages a paging phase still has to show.
pub open spec fn pages_left(m: ModelV, p: PhaseS) -> int {
    match p {
        PhaseS::Paging { node, page_idx } => pages_of(m.nodes[node]).len() - page_idx,
        _ => 0,
    }
}

/// A stopped scripted state never moves again.
pub proof fn lemma_stopped_stays(m: ModelV, sels: Seq<usize>, st: StateS, used: int)
    requires
        script_stopped(sels, st, used),
    ensures
        script_step(m, sels, st, used) == (st, used),
{
}

/// One scripted step from a consistent, unfailed state of a valid model
/// keeps consistency, hits no missing node, and consumes script entries in
/// order.
proof fn lemma_step_ok(m: ModelV, sels: Seq<usize>, st: StateS, used: int)
    requires
        valid_model(m),
        phase_ok(m, st.phase),
        !(st.phase is FailedStart),
        !(st.phase is FailedNext),
        0 <= used <= sels.len(),
    ensures
        ({
            let (st2, u2) = script_step(m, sels, st, used);
            phase_ok(m, st2.phase) && !(st2.phase is FailedStart) && !(st2.phase is FailedNext)
                && used <= u2 <= sels.len()
        }),
{
    match st.phase {
        PhaseS::Paging { node, page_idx } => {
            assert(node_refs_ok(m, m.nodes[node]));
        },
        PhaseS::Choosing { node } => {
            assert(node_refs_ok(m, m.nodes[node]));
        },
        _ => {},
    }
}

/// Every prefix of a scripted run from a consistent, unfailed state of a
/// valid model is consistent and unfailed.
proof fn lemma_run_ok(m: ModelV, sels: Seq<usize>, st: StateS, used: int, k: nat)
    requires
        valid_model(m),
        phase_ok(m, st.phase),
        !(st.phase is FailedStart),
        !(st.phase is FailedNext),
        0 <= used <= sels.len(),
    ensures
        ({
            let (st2, u2) = script_run_from(m, sels, st, used, k);
            phase_ok(m, st2.phase) && !(st2.phase is FailedStart) && !(st2.phase is FailedNext) && 0
                <= u2 <= sels.len()
        }),
    decreases k,
{
    if k > 0 {
        lemma_step_ok(m, sels, st, used);
        let (st1, u1) = script_step(m, sels, st, used);
        lemma_run_ok(m, sels, st1, u1, (k - 1) as nat);
    }
}

/// From a consistent, unfailed state, a scripted run of a valid model whose
/// acyclicity `rank` witnesses stops after finitely many steps.
proof fn lemma_stops_from(
    m: ModelV,
    sels: Seq<usize>,
    rank: Map<Seq<char>, nat>,
    st: StateS,
    used: int,
)
    requires
        valid_model(m),
        ranked(m, rank),
        phase_ok(m, st.phase),
        !(st.phase is FailedStart),
        !(st.phase is FailedNext),
        0 <= used <= sels.len(),
    ensures
        exists|k: nat|
            ({
                let (st2, u2) = #[trigger] script_run_from(m, sels, st, used, k);
                script_stopped(sels, st2, u2)
            }),
    decreases sels.len() - used, phase_rank(rank, st.phase), pages_left(m, st.phase),
{
    if script_stopped(sels, st, used) {
        assert(script_run_from(m, sels, st, used, 0nat) == (st, used));
    } else {
        lemma_step_ok(m, sels, st, used);
        let (st2, u2) = script_step(m, sels, st, used);
        match st.phase {
            PhaseS::Paging { node, page_idx } => {
                assert(node_rank_ok(rank, m.nodes[node], rank[node]));
            },
            PhaseS::Choosing { node } => {
                assert(node_rank_ok(rank, m.nodes[node], rank[node]));
            },
            _ => {},
        }
        lemma_stops_from(m, sels, rank, st2, u2);
        let k = choose|k: nat|
            ({
                let (st3, u3) = #[trigger] script_run_from(m, sels, st2, u2, k);
                script_stopped(sels, st3, u3)
            });
        assert(script_run_from(m, sels, st, used, k + 1) == script_run_from(m, sels, st2, u2, k));
    }
}

/// Traversal of a valid model always terminates: when every node reference
/// resolves, the map `rank` witnesses that the references are acyclic, and
/// the start name resolves, then whatever the script holds, the scripted
/// machine stops after finitely many steps, never stands at a failure, and
/// whenever it finishes, it finishes at an end node.
pub proof fn lemma_traversal_stops(m: ModelV, sels: Seq<usize>, rank: Map<Seq<char>, nat>)
    requires
        valid_model(m),
        ranked(m, rank),
        m.nodes.contains_key(m.start),
    ensures
        exists|k: nat|
            ({
                let (st, u) = #[trigger] script_run(m, sels, k);
                script_stopped(sels, st, u)
            }),
        forall|k: nat|
            ({
                let (st, u) = #[trigger] script_run(m, sels, k);
                &&& !(st.phase is FailedStart)
                &&& !(st.phase is FailedNext)
                &&& (st.phase matches PhaseS::Finished { node } ==> m.nodes.contains_key(node)
                    && m.nodes[node] is End)
                &&& (script_stopped(sels, st, u) ==> st.phase is Finished || (st.phase is Choosing
                    && u >= sels.len()))
            }),
{
    let st0 = init_state(m);
    assert(phase_ok(m, st0.phase));
    lemma_stops_from(m, sels, rank, st0, 0);
    let k = choose|k: nat|
        ({
            let (st2, u2) = #[trigger] script_run_from(m, sels, st0, 0, k);
            script_stopped(sels, st2, u2)
        });
    assert(script_run(m, sels, k) == script_run_from(m, sels, st0, 0, k));
    assert forall|k2: nat|
        ({
            let (st, u) = #[trigger] script_run(m, sels, k2);
            &&& !(st.phase is FailedStart)
            &&& !(st.phase is FailedNext)
            &&& (st.phase matches PhaseS::Finished { node } ==> m.nodes.contains_key(node)
                && m.nodes[node] is End)
        }) by {
        lemma_run_ok(m, sels, st0, 0, k2);
    }
}

/// The content of one rendered narration line: the speaker's name, a
/// separating colon and space, and the page's text.
pub open spec fn page_line(npc: Seq<char>, text: Seq<char>) -> Seq<char> {
    npc + ": "@ + text
}

/// Builds the narration line shown for one page of a node.
pub fn render_page_line(npc: &String, text: &String) -> (r: String)
    ensures
        r@ == page_line(npc@, text@),
{
    let mut line = npc.clone();
    line.append(": ");
    line.append(text.as_str());
    line
}

/// The result of driving a dialog with a prepared list of selections.
pub enum Outcome {
    /// The start node name did not resolve; nothing was traversed.
    StartNotFound,
    /// A `next` reference did not resolve during traversal.
    MissingNode { name: String },
    /// The selections ran out while a response node awaited one.
    OutOfInput { score: i128 },
    /// An end node was reached and all of its pages were shown.
    Finished { score: i128, end_node: String },
}

/// Whether the outcome `r` reports the stopped state `(st, used)`.
pub open spec fn outcome_matches(sels: Seq<usize>, st: StateS, used: int, r: Outcome) -> bool {
    match r {
        Outcome::StartNotFound => st.phase is FailedStart,
        Outcome::MissingNode { name } => st.phase matches PhaseS::FailedNext { missing } && name@
            == missing,
        Outcome::OutOfInput { score } => st.phase is Choosing && used >= sels.len() && score as int
            == st.score,
        Outcome::Finished { score, end_node } => st.phase matches PhaseS::Finished { node }
            && end_node@ == node && score as int == st.score,
    }
}

/// Runs the dialog headlessly for at most `max_steps` machine steps:
/// narration pages are advanced without input, and each time a response
/// node awaits a selection the next entry of `sels` is offered (an invalid
/// entry is consumed and the node asks again, as an interactive run
/// re-prompts). Returns how and where the run stopped, or nothing when the
/// machine is still running after `max_steps` steps (as it stays forever on
/// a model with a reference cycle ahead of every end node).
pub fn run_script(df: &DialogFile, sels: &Vec<usize>, max_steps: usize) -> (r: Option<Outcome>)
    requires
        df.wf(),
    ensures
        match r {
            Some(out) => exists|n: nat|
                n <= max_steps && {
                    let (st, used) = #[trigger] script_run(df@, sels@, n);
                    script_stopped(sels@, st, used) && outcome_matches(sels@, st, used, out)
                },
            None => forall|n: nat|
                n <= max_steps ==> {
                    let (st, used) = #[trigger] script_run(df@, sels@, n);
                    !script_stopped(sels@, st, used)
                },
        },
{
    let ghost m = df@;
    proof {
        lemma_values_in_range(df);
    }
    let mut runner = Runner::start(df);
    let mut used: usize = 0;
    let mut steps: usize = 0;
    loop
        invariant
            df.wf(),
            m == df@,
            values_in_range(m),
            runner.inv(m),
            used <= sels@.len(),
            steps <= max_steps,
            script_run(m, sels@, steps as nat) == (runner@, used as int),
            -128 * (used as int) <= runner@.score <= 128 * (used as int),
            forall|k: nat|
                k < steps as nat ==> {
                    let (st, u) = #[trigger] script_run(m, sels@, k);
                    !script_stopped(sels@, st, u)
                },
        decreases max_steps - steps,
    {
        match &runner.phase {
            Phase::Finished { node } => {
                return Some(Outcome::Finished { score: runner.score, end_node: node.clone() });
            },
            Phase::FailedStart => {
                return Some(Outcome::StartNotFound);
            },
            Phase::FailedNext { missing } => {
                return Some(Outcome::MissingNode { name: missing.clone() });
            },
            _ => {},
        }
        if matches!(&runner.phase, Phase::Paging { .. }) {
            if steps == max_steps {
                return None;
            }
            let ghost pre = runner@;
            let ghost preu = used as int;
            proof {
                lemma_run_compose(m, sels@, init_state(m), 0, steps as nat, 1);
            }
            runner.advance(df);
            steps = steps + 1;
            proof {
                let (st2, u2) = script_step(m, sels@, pre, preu);
                assert(script_run_from(m, sels@, st2, u2, 0nat) == (st2, u2));
                assert(script_run_from(m, sels@, pre, preu, 1nat) == (st2, u2));
                assert(runner@ == st2);
            }
        } else {
            if used < sels.len() {
                if steps == max_steps {
                    return None;
                }
                let c = sels[used];
                let ghost pre = runner@;
                let ghost preu = used as int;
                proof {
                    lemma_run_compose(m, sels@, init_state(m), 0, steps as nat, 1);
                }
                let _valid = runner.select(df, c);
                used = used + 1;
                steps = steps + 1;
                proof {
                    let (st2, u2) = script_step(m, sels@, pre, preu);
                    assert(script_run_from(m, sels@, st2, u2, 0nat) == (st2, u2));
                    assert(script_run_from(m, sels@, pre, preu, 1nat) == (st2, u2));
                    assert(runner@ == st2);
                }
            } else {
                return Some(Outcome::OutOfInput { score: runner.score });
            }
        }
    }
}

} // verus!

//! The dialog model: a graph of named nodes, a designated start node, and a
//! speaker name. Nodes are stored as a vector of `(name, node)` pairs with
//! unique names; the abstract view is a `Map` from the name's characters to
//! the node's view.

use vstd::prelude::*;

verus! {

/// One unit of displayed narration.
pub struct Page {
    pub text: String,
}

impl View for Page {
    type V = Seq<char>;

    open spec fn view(&self) -> Seq<char> {
        self.text@
    }
}

/// One selectable option of a response node: display text, the score delta
/// awarded when chosen, and the name of the node to move to.
pub struct Answer {
    pub text: String,
    pub value: i8,
    pub next: String,
}

/// Abstract view of an `Answer`.
pub struct AnswerV {
    pub text: Seq<char>,
    pub value: int,
    pub next: Seq<char>,
}

impl View for Answer {
    type V = AnswerV;

    open spec fn view(&self) -> AnswerV {
        AnswerV { text: self.text@, value: self.value as int, next: self.next@ }
    }
}

/// A dialog node: narration followed by an unconditional transition,
/// a branch point with selectable answers, or narration followed by
/// termination.
pub enum DialogNode {
    CallNode { npc_pages: Vec<Page>, next: String },
    ResponseNode { answers: Vec<Answer> },
    EndNode { npc_pages: Vec<Page> },
}

/// Abstract view of a `DialogNode`.
pub enum NodeV {
    Call { pages: Seq<Seq<char>>, next: Seq<char> },
    Response { answers: Seq<AnswerV> },
    End { pages: Seq<Seq<char>> },
}

impl View for DialogNode {
    type V = NodeV;

    open spec fn view(&self) -> NodeV {
        match self {
            DialogNode::CallNode { npc_pages, next } => NodeV::Call {
                pages: npc_pages@.map_values(|p: Page| p@),
                next: next@,
            },
            DialogNode::ResponseNode { answers } => NodeV::Response {
                answers: answers@.map_values(|a: Answer| a@),
            },
            DialogNode::EndNode { npc_pages } => NodeV::End {
                pages: npc_pages@.map_values(|p: Page| p@),
            },
        }
    }
}

/// Abstract view of a whole model.
pub struct ModelV {
    pub start: Seq<char>,
    pub npc: Seq<char>,
    pub nodes: Map<Seq<char>, NodeV>,
}

/// Whether some entry of `s` carries the name `k`.
pub open spec fn has_key(s: Seq<(String, DialogNode)>, k: Seq<char>) -> bool {
    exists|i: int| 0 <= i < s.len() && #[trigger] s[i].0@ == k
}

/// The node stored under name `k` (meaningful only when the names are
/// unique and `k` is present).
pub open spec fn node_at(s: Seq<(String, DialogNode)>, k: Seq<char>) -> NodeV {
    let i = choose|i: int| 0 <= i < s.len() && #[trigger] s[i].0@ == k;
    s[i].1@
}

/// The entries of `s` as a map from name to node view.
pub open spec fn nodes_map(s: Seq<(String, DialogNode)>) -> Map<Seq<char>, NodeV> {
    Map::new(|k: Seq<char>| has_key(s, k), |k: Seq<char>| node_at(s, k))
}

/// No two entries carry the same name.
pub open spec fn uniq_names(s: Seq<(String, DialogNode)>) -> bool {
    forall|i: int, j: int|
        0 <= i < s.len() && 0 <= j < s.len() && #[trigger] s[i].0@ == #[trigger] s[j].0@ ==> i == j
}

/// With unique names, the entry at index `i` decides the map at its name.
pub proof fn lemma_node_at_index(s: Seq<(String, DialogNode)>, i: int)
    requires
        uniq_names(s),
        0 <= i < s.len(),
    ensures
        nodes_map(s).contains_key(s[i].0@),
        nodes_map(s)[s[i].0@] == s[i].1@,
{
    assert(has_key(s, s[i].0@));
    let j = choose|j: int| 0 <= j < s.len() && #[trigger] s[j].0@ == s[i].0@;
    assert(j == i);
}

/// Whether every node reference of `n` resolves in `m`.
pub open spec fn node_refs_ok(m: ModelV, n: NodeV) -> bool {
    match n {
        NodeV::Call { next, .. } => m.nodes.contains_key(next),
        NodeV::Response { answers } => forall|i: int|
            0 <= i < answers.len() ==> m.nodes.contains_key(#[trigger] answers[i].next),
        NodeV::End { .. } => true,
    }
}

/// A valid model: every `next` and every answer's `next` names a node that
/// is present.
pub open spec fn valid_model(m: ModelV) -> bool {
    forall|k: Seq<char>| #[trigger] m.nodes.contains_key(k) ==> node_refs_ok(m, m.nodes[k])
}

/// Replacing the entry at `i` by one with the same name updates the map
/// view at that name and keeps the names unique.
proof fn lemma_update_map(s: Seq<(String, DialogNode)>, i: int, p: (String, DialogNode))
    requires
        uniq_names(s),
        0 <= i < s.len(),
        s[i].0@ == p.0@,
    ensures
        uniq_names(s.update(i, p)),
        nodes_map(s.update(i, p)) == nodes_map(s).insert(p.0@, p.1@),
{
    let t = s.update(i, p);
    assert forall|a: int| 0 <= a < t.len() implies #[trigger] t[a].0@ == s[a].0@ by {}
    assert(uniq_names(t));
    assert forall|k: Seq<char>| has_key(t, k) implies has_key(s, k) by {
        let a = choose|a: int| 0 <= a < t.len() && #[trigger] t[a].0@ == k;
        assert(s[a].0@ == k);
    }
    assert forall|k: Seq<char>| has_key(s, k) implies has_key(t, k) by {
        let a = choose|a: int| 0 <= a < s.len() && #[trigger] s[a].0@ == k;
        assert(t[a].0@ == k);
    }
    assert(has_key(s, p.0@));
    assert forall|k: Seq<char>| has_key(t, k) implies nodes_map(t)[k] == nodes_map(s).insert(
        p.0@,
        p.1@,
    )[k] by {
        if k == p.0@ {
            lemma_node_at_index(t, i);
        } else {
            let a = choose|a: int| 0 <= a < s.len() && #[trigger] s[a].0@ == k;
            assert(a != i);
            lemma_node_at_index(s, a);
            lemma_node_at_index(t, a);
        }
    }
    assert(nodes_map(t) =~= nodes_map(s).insert(p.0@, p.1@));
}

/// Appending an entry with a fresh name inserts it into the map view and
/// keeps the names unique.
proof fn lemma_push_map(s: Seq<(String, DialogNode)>, p: (String, DialogNode))
    requires
        uniq_names(s),
        !has_key(s, p.0@),
    ensures
        uniq_names(s.push(p)),
        nodes_map(s.push(p)) == nodes_map(s).insert(p.0@, p.1@),
{
    let t = s.push(p);
    assert forall|a: int, b: int|
        0 <= a < t.len() && 0 <= b < t.len() && #[trigger] t[a].0@ == #[trigger] t[b].0@ implies a
        == b by {
        if a < s.len() && b < s.len() {
            assert(s[a].0@ == s[b].0@);
        } else if a < s.len() {
            assert(s[a].0@ == p.0@);
        } else if b < s.len() {
            assert(s[b].0@ == p.0@);
        }
    }
    assert forall|k: Seq<char>| has_key(t, k) implies has_key(s, k) || k == p.0@ by {
        let a = choose|a: int| 0 <= a < t.len() && #[trigger] t[a].0@ == k;
        if a < s.len() {
            assert(s[a].0@ == k);
        }
    }
    assert forall|k: Seq<char>| has_key(s, k) implies has_key(t, k) by {
        let a = choose|a: int| 0 <= a < s.len() && #[trigger] s[a].0@ == k;
        assert(t[a].0@ == k);
    }
    assert(t[s.len() as int].0@ == p.0@);
    assert(has_key(t, p.0@));
    assert forall|k: Seq<char>| has_key(t, k) implies nodes_map(t)[k] == nodes_map(s).insert(
        p.0@,
        p.1@,
    )[k] by {
        if k == p.0@ {
            lemma_node_at_index(t, s.len() as int);
        } else {
            let a = choose|a: int| 0 <= a < s.len() && #[trigger] s[a].0@ == k;
            lemma_node_at_index(s, a);
            lemma_node_at_index(t, a);
        }
    }
    assert(nodes_map(t) =~= nodes_map(s).insert(p.0@, p.1@));
}

/// The dialog model: a start-node name, a speaker name, and the named nodes.
pub struct DialogFile {
    start_node: String,
    npc_name: String,
    dialog_nodes: Vec<(String, DialogNode)>,
}

impl View for DialogFile {
    type V = ModelV;

    closed spec fn view(&self) -> ModelV {
        ModelV {
            start: self.start_node@,
            npc: self.npc_name@,
            nodes: nodes_map(self.dialog_nodes@),
        }
    }
}

impl DialogFile {
    /// The stored node names are unique, so the map view is faithful.
    pub closed spec fn wf(&self) -> bool {
        uniq_names(self.dialog_nodes@)
    }

    /// A model with no nodes, an empty start-node name and an empty
    /// speaker name.
    pub fn empty() -> (r: Self)
        ensures
            r.wf(),
            r@.start =~= Seq::<char>::empty(),
            r@.npc =~= Seq::<char>::empty(),
            r@.nodes =~= Map::<Seq<char>, NodeV>::empty(),
    {
        let r = Self {
            start_node: String::new(),
            npc_name: String::new(),
            dialog_nodes: Vec::new(),
        };
        proof {
            assert(r@.nodes =~= Map::<Seq<char>, NodeV>::empty());
        }
        r
    }

    /// The designated entry key.
    pub fn start_node(&self) -> (r: &String)
        ensures
            r@ == self@.start,
    {
        &self.start_node
    }

    /// Sets the entry key; no existence check is made.
    pub fn set_start_node(&mut self, name: String)
        ensures
            final(self)@.start == name@,
            final(self)@.npc == old(self)@.npc,
            final(self)@.nodes == old(self)@.nodes,
            final(self).wf() == old(self).wf(),
    {
        self.start_node = name;
    }

    /// The display name shown as the speaker for all narration pages.
    pub fn npc_name(&self) -> (r: &String)
        ensures
            r@ == self@.npc,
    {
        &self.npc_name
    }

    /// Sets the speaker name.
    pub fn set_npc_name(&mut self, name: String)
        ensures
            final(self)@.npc == name@,
            final(self)@.start == old(self)@.start,
            final(self)@.nodes == old(self)@.nodes,
            final(self).wf() == old(self).wf(),
    {
        self.npc_name = name;
    }

    /// The index of the entry named `name`, if any.
    fn find(&self, name: &String) -> (r: Option<usize>)
        ensures
            match r {
                Some(i) => i < self.dialog_nodes@.len() && self.dialog_nodes@[i as int].0@ == name@,
                None => !has_key(self.dialog_nodes@, name@),
            },
    {
        let n = self.dialog_nodes.len();
        let mut i: usize = 0;
        while i < n
            invariant
                i <= n,
                n == self.dialog_nodes@.len(),
                forall|j: int| 0 <= j < i ==> #[trigger] self.dialog_nodes@[j].0@ != name@,
            decreases n - i,
        {
            if self.dialog_nodes[i].0.eq(name) {
                return Some(i);
            }
            i = i + 1;
        }
        None
    }

    /// Whether every name in `answers` resolves to a node of the model.
    fn answers_resolve(&self, answers: &Vec<Answer>) -> (r: bool)
        requires
            self.wf(),
        ensures
            r == (forall|i: int|
                0 <= i < answers@.len() ==> self@.nodes.contains_key(#[trigger] answers@[i].next@)),
    {
        let n = answers.len();
        let mut i: usize = 0;
        while i < n
            invariant
                self.wf(),
                i <= n,
                n == answers@.len(),
                forall|j: int| 0 <= j < i ==> self@.nodes.contains_key(#[trigger] answers@[j].next@),
            decreases n - i,
        {
            if self.get_node(&answers[i].next).is_none() {
                return false;
            }
            i = i + 1;
        }
        true
    }

    /// The construction-time validation pass: whether every `next` and
    /// every answer's `next` of every node resolves, so that a traversal
    /// can never hit a missing node.
    pub fn validate(&self) -> (r: bool)
        requires
            self.wf(),
        ensures
            r == valid_model(self@),
    {
        let n = self.dialog_nodes.len();
        let mut i: usize = 0;
        while i < n
            invariant
                self.wf(),
                i <= n,
                n == self.dialog_nodes@.len(),
                forall|j: int|
                    0 <= j < i ==> node_refs_ok(self@, #[trigger] self.dialog_nodes@[j].1@),
            decreases n - i,
        {
            let ghost nd = self.dialog_nodes@[i as int].1;
            let entry_ok = match &self.dialog_nodes[i].1 {
                DialogNode::CallNode { next, .. } => {
                    let r = self.get_node(next).is_some();
                    proof {
                        assert(r == node_refs_ok(self@, nd@));
                    }
                    r
                },
                DialogNode::ResponseNode { answers } => {
                    let r = self.answers_resolve(answers);
                    proof {
                        let avs = answers@.map_values(|a: Answer| a@);
                        assert(nd@ == NodeV::Response { answers: avs });
                        if r {
                            assert forall|ii: int|
                                0 <= ii < avs.len() implies self@.nodes.contains_key(
                                #[trigger] avs[ii].next,
                            ) by {
                                assert(avs[ii] == answers@[ii]@);
                            }
                        } else {
                            if node_refs_ok(self@, nd@) {
                                assert forall|jj: int|
                                    0 <= jj < answers@.len() implies self@.nodes.contains_key(
                                    #[trigger] answers@[jj].next@,
                                ) by {
                                    assert(avs[jj] == answers@[jj]@);
                                    assert(avs == nd@->Response_answers);
                                    assert(self@.nodes.contains_key(
                                        nd@->Response_answers[jj].next,
                                    ));
                                }
                                assert(false);
                            }
                        }
                        assert(r == node_refs_ok(self@, nd@));
                    }
                    r
                },
                DialogNode::EndNode { .. } => {
                    proof {
                        assert(node_refs_ok(self@, nd@));
                    }
                    true
                },
            };
            if !entry_ok {
                proof {
                    lemma_node_at_index(self.dialog_nodes@, i as int);
                }
                return false;
            }
            i = i + 1;
        }
        proof {
            assert forall|k: Seq<char>| self@.nodes.contains_key(k) implies node_refs_ok(
                self@,
                self@.nodes[k],
            ) by {
                let s = self.dialog_nodes@;
                let j = choose|j: int| 0 <= j < s.len() && #[trigger] s[j].0@ == k;
                lemma_node_at_index(s, j);
            }
        }
        true
    }

    /// Inserts `node` under `name`. If an entry with that name already
    /// exists, the node is replaced and the previous node is returned.
    pub fn add_node(&mut self, name: String, node: DialogNode) -> (r: Option<DialogNode>)
        requires
            old(self).wf(),
        ensures
            final(self).wf(),
            final(self)@.nodes == old(self)@.nodes.insert(name@, node@),
            final(self)@.start == old(self)@.start,
            final(self)@.npc == old(self)@.npc,
            match r {
                Some(prev) => old(self)@.nodes.contains_key(name@) && prev@ == old(
                    self,
                )@.nodes[name@],
                None => !old(self)@.nodes.contains_key(name@),
            },
    {
        let ghost s = self.dialog_nodes@;
        match self.find(&name) {
            Some(i) => {
                proof {
                    lemma_node_at_index(s, i as int);
                }
                let (_old_name, old_node) = self.dialog_nodes.remove(i);
                self.dialog_nodes.insert(i, (name, node));
                proof {
                    assert(self.dialog_nodes@ =~= s.update(i as int, self.dialog_nodes@[i as int]));
                    lemma_update_map(s, i as int, self.dialog_nodes@[i as int]);
                }
                Some(old_node)
            },
            None => {
                self.dialog_nodes.push((name, node));
                proof {
                    lemma_push_map(s, self.dialog_nodes@[s.len() as int]);
                    assert(self.dialog_nodes@ =~= s.push(self.dialog_nodes@[s.len() as int]));
                }
                None
            },
        }
    }

    /// Every node view in the map is the view of some stored node.
    pub proof fn lemma_node_view_from_entry(&self, k: Seq<char>)
        requires
            self.wf(),
            self@.nodes.contains_key(k),
        ensures
            exists|nd: DialogNode| self@.nodes[k] == nd@,
    {
        let s = self.dialog_nodes@;
        assert(has_key(s, k));
        let i = choose|i: int| 0 <= i < s.len() && #[trigger] s[i].0@ == k;
        lemma_node_at_index(s, i);
        assert(self@.nodes[k] == s[i].1@);
    }

    /// Pure lookup: the node stored under `name`, or nothing.
    pub fn get_node(&self, name: &String) -> (r: Option<&DialogNode>)
        requires
            self.wf(),
        ensures
            match r {
                Some(n) => self@.nodes.contains_key(name@) && n@ == self@.nodes[name@],
                None => !self@.nodes.contains_key(name@),
            },
    {
        match self.find(name) {
            Some(i) => {
                proof {
                    lemma_node_at_index(self.dialog_nodes@, i as int);
                }
                Some(&self.dialog_nodes[i].1)
            },
            None => None,
        }
    }
}

} // verus!

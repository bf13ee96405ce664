//! The extraction of a workspace graph as a conversation with the language
//! server.
//!
//! An `Extraction` says which request to send next and takes the server's
//! answer to it; whoever talks to the server sends the requests and hands
//! the answers back. The requests come in phases: the symbols of each
//! document; then, where the plan asks for calls, the call hierarchy of each
//! callable and the outgoing calls of each item prepared; then, where the
//! plan asks for accesses, the references to each state symbol and the
//! highlights of each document that holds them.
use vstd::prelude::*;

use crate::analysis::{
    lacks, lemma_accesses_lack, lemma_calls_lack, lemma_nest_forest_lacks, lemma_prepare_keeps_edges,
    accesses_model, calls_model, entry_for, find, forest_count, grouping, group_views, insert_file, keys,
    known_uris, lemma_groups_not_empty, location_key, model_wf, nest_forest, prepare_model, probe_order,
    room, symbol_keys, file_node_name, whole_range, CallItem, Highlight, IndexedSymbol, Key, Model, NodeView,
    ReferenceGroup, SourceDocument, SymbolResponse, WorkspaceGraph,
};
use crate::error::PlexusError;
use crate::graph::{graph_edges, graph_nodes, Location, NodeKind, Position, ProgramGraph, Range, Relation};
use crate::protocol::Plan;
use crate::seqs::{first_where, lemma_first_where, lemma_first_where_is};

verus! {

/// Where the conversation stands.
#[derive(Clone, Copy, Debug, PartialEq, Eq, Structural)]
pub enum Stage {
    /// Waiting for the symbols of this document.
    Symbols(usize),
    /// Waiting for the call hierarchy prepared at this callable.
    Preparing(usize),
    /// Waiting for the outgoing calls of this prepared item.
    Calling(usize),
    /// Waiting for the references to this state symbol.
    Referencing(usize),
    /// Waiting for the highlights of this group of references to this state
    /// symbol.
    Highlighting(usize, usize),
    /// Nothing more to ask.
    Done,
}

/// The request to send next.
pub enum Request {
    /// The document symbols of document `document`.
    DocumentSymbols { document: usize },
    /// The call hierarchy at `selection`; `wait_for_item` asks to send it
    /// again while the server answers without items.
    PrepareCallHierarchy { selection: Location, wait_for_item: bool },
    /// The outgoing calls of the prepared item at position `item` among all
    /// the items answered to the call hierarchy requests, in order.
    OutgoingCalls { item: usize },
    /// The references to the symbol whose name is at `selection`.
    References { selection: Location },
    /// The document highlights at `position` of document `uri`.
    Highlights { uri: String, position: Position },
    /// None: the graph is complete.
    Done,
}

/// The server's answer to a request.
pub enum Answer {
    Symbols(Option<SymbolResponse>),
    Prepared(Vec<CallItem>),
    Calls(Vec<CallItem>),
    References(Vec<Location>),
    Highlights(Vec<Highlight>),
}

/// A document as plain values: URI and text.
pub type DocumentView = (Seq<char>, Seq<char>);

/// The state of an extraction as plain values.
pub struct ExtractionView {
    /// The workspace graph built so far.
    pub model: Model,
    /// The documents.
    pub documents: Seq<DocumentView>,
    /// What is asked beyond symbols.
    pub plan: Plan,
    /// Where the conversation stands.
    pub stage: Stage,
    /// The callables, in the order their call hierarchy is prepared.
    pub definitions: Seq<(usize, Key)>,
    /// The locations of the names of the items prepared so far.
    pub prepared: Seq<Key>,
    /// How many items the call hierarchy requests have answered so far.
    pub answered: nat,
    /// Each item newly prepared: its position among the answered items,
    /// and its node.
    pub callers: Seq<(usize, usize)>,
    /// The state symbols whose accesses are asked for.
    pub states: Seq<(usize, Key)>,
    /// The groups of references to the current state symbol.
    pub groups: Seq<(Seq<char>, Seq<Range>)>,
}

/// The views of documents.
pub open spec fn document_views(documents: Seq<SourceDocument>) -> Seq<DocumentView> {
    documents.map_values(|d: SourceDocument| (d.uri@, d.text@))
}

/// What adding the file node of a document makes of a model.
pub open spec fn file_added(w: Model, d: DocumentView) -> Model {
    Model {
        nodes: w.nodes.push((file_node_name(d.0), NodeKind::File, d.0, whole_range(d.1))),
        files: insert_file(w.files, d.0, w.nodes.len() as usize),
        ..w
    }
}

/// What the symbols of document `uri` make of a model; `None` where the
/// answer is a non-empty flat list.
pub open spec fn symbols_added(w: Model, uri: Seq<char>, response: Option<SymbolResponse>) -> Option<Model> {
    match response {
        Some(SymbolResponse::Nested(symbols)) => Some(
            nest_forest(w, uri, find(w.files, uri).unwrap(), false, symbols@),
        ),
        Some(SymbolResponse::Flat(count)) => if count == 0 {
            Some(w)
        } else {
            None
        },
        None => Some(w),
    }
}

/// The accesses phase, or the end where it is not planned or there is no
/// state symbol.
pub open spec fn accesses_start(v: ExtractionView) -> ExtractionView {
    if v.plan.accesses && v.model.states.len() > 0 {
        ExtractionView { stage: Stage::Referencing(0), states: v.model.states, ..v }
    } else {
        ExtractionView { stage: Stage::Done, ..v }
    }
}

/// The outgoing calls of the first item prepared, or the accesses phase
/// where no item was prepared.
pub open spec fn calling_start(v: ExtractionView) -> ExtractionView {
    if v.callers.len() > 0 {
        ExtractionView { stage: Stage::Calling(0), ..v }
    } else {
        accesses_start(v)
    }
}

/// The calls phase, or the accesses phase where calls are not planned or
/// there is no callable.
pub open spec fn calls_start(v: ExtractionView) -> ExtractionView {
    let definitions = probe_order(v.model.callables, v.model.nodes);
    if v.plan.calls && definitions.len() > 0 {
        ExtractionView { stage: Stage::Preparing(0), definitions, ..v }
    } else {
        accesses_start(v)
    }
}

/// The stage after the symbols of document `d`.
pub open spec fn after_document(v: ExtractionView, d: int) -> ExtractionView {
    if d + 1 < v.documents.len() {
        ExtractionView { stage: Stage::Symbols((d + 1) as usize), ..v }
    } else {
        calls_start(v)
    }
}

/// The stage after the accesses to state symbol `s`.
pub open spec fn after_state(v: ExtractionView, s: int) -> ExtractionView {
    if s + 1 < v.states.len() {
        ExtractionView { stage: Stage::Referencing((s + 1) as usize), ..v }
    } else {
        ExtractionView { stage: Stage::Done, ..v }
    }
}

/// The first stage of an extraction.
pub open spec fn start(documents: Seq<DocumentView>, plan: Plan) -> ExtractionView {
    let v = ExtractionView {
        model: Model {
            nodes: Seq::empty(),
            edges: Seq::empty(),
            selections: Seq::empty(),
            files: Seq::empty(),
            scopes: Seq::empty(),
            callables: Seq::empty(),
            states: Seq::empty(),
        },
        documents,
        plan,
        stage: Stage::Done,
        definitions: Seq::empty(),
        prepared: Seq::empty(),
        answered: 0,
        callers: Seq::empty(),
        states: Seq::empty(),
        groups: Seq::empty(),
    };
    if documents.len() > 0 {
        ExtractionView { stage: Stage::Symbols(0), ..v }
    } else {
        calls_start(v)
    }
}

/// The answer is to the request of the stage.
pub open spec fn answers(stage: Stage, answer: Answer) -> bool {
    match stage {
        Stage::Symbols(_) => answer is Symbols,
        Stage::Preparing(_) => answer is Prepared,
        Stage::Calling(_) => answer is Calls,
        Stage::Referencing(_) => answer is References,
        Stage::Highlighting(_, _) => answer is Highlights,
        Stage::Done => false,
    }
}

/// The graph has room for what the answer adds, below the limit of its
/// indices.
pub open spec fn fits(v: ExtractionView, answer: Answer) -> bool {
    match answer {
        Answer::Symbols(Some(SymbolResponse::Nested(symbols))) => room(v.model, forest_count(symbols@) + 1),
        Answer::Symbols(_) => room(v.model, 1),
        Answer::Prepared(items) => v.model.nodes.len() + items.len() < 0xFFFF_FFFF && v.answered + items.len()
            <= usize::MAX,
        Answer::Calls(callees) => room(v.model, callees.len() as nat),
        Answer::References(_) => true,
        Answer::Highlights(highlights) => v.model.edges.len() + highlights.len() <= 0xFFFF_FFFF,
    }
}

/// Newly prepared items with their positions moved past `by` earlier ones.
pub open spec fn shifted(added: Seq<(usize, usize)>, by: nat) -> Seq<(usize, usize)> {
    added.map_values(|x: (usize, usize)| ((x.0 + by) as usize, x.1))
}

/// The state after an answer; `None` where the answer is refused (flat
/// symbols).
pub open spec fn stepped(v: ExtractionView, answer: Answer) -> Option<ExtractionView> {
    match (v.stage, answer) {
        (Stage::Symbols(d), Answer::Symbols(response)) => {
            let document = v.documents[d as int];
            match symbols_added(file_added(v.model, document), document.0, response) {
                Some(w) => Some(after_document(ExtractionView { model: w, ..v }, d as int)),
                None => None,
            }
        },
        (Stage::Preparing(k), Answer::Prepared(items)) => {
            let p = prepare_model(v.model, v.prepared, items@);
            let v1 = ExtractionView {
                model: p.0,
                prepared: p.1,
                answered: v.answered + items.len() as nat,
                callers: v.callers + shifted(p.2, v.answered),
                ..v
            };
            Some(
                if k + 1 < v.definitions.len() {
                    ExtractionView { stage: Stage::Preparing((k + 1) as usize), ..v1 }
                } else {
                    calling_start(v1)
                },
            )
        },
        (Stage::Calling(j), Answer::Calls(callees)) => {
            let v1 = ExtractionView { model: calls_model(v.model, v.callers[j as int].1, callees@), ..v };
            Some(
                if j + 1 < v.callers.len() {
                    ExtractionView { stage: Stage::Calling((j + 1) as usize), ..v1 }
                } else {
                    accesses_start(v1)
                },
            )
        },
        (Stage::Referencing(s), Answer::References(references)) => {
            let groups = grouping(v.model.files, references@);
            Some(
                if groups.len() > 0 {
                    ExtractionView { stage: Stage::Highlighting(s, 0), groups, ..v }
                } else {
                    after_state(ExtractionView { groups, ..v }, s as int)
                },
            )
        },
        (Stage::Highlighting(s, g), Answer::Highlights(highlights)) => {
            let group = v.groups[g as int];
            let v1 = ExtractionView {
                model: accesses_model(v.model, group.0, group.1, highlights@, v.states[s as int].0),
                ..v
            };
            Some(
                if g + 1 < v.groups.len() {
                    ExtractionView { stage: Stage::Highlighting(s, (g + 1) as usize), ..v1 }
                } else {
                    after_state(v1, s as int)
                },
            )
        },
        _ => Some(v),
    }
}

/// The place of a stage in the conversation: phase, then position in the
/// phase (a state symbol's references before the highlights of its groups).
pub open spec fn stage_rank(stage: Stage) -> (int, int, int) {
    match stage {
        Stage::Symbols(d) => (0, d as int, 0),
        Stage::Preparing(k) => (1, k as int, 0),
        Stage::Calling(j) => (2, j as int, 0),
        Stage::Referencing(s) => (3, s as int, 0),
        Stage::Highlighting(s, g) => (3, s as int, g + 1),
        Stage::Done => (4, 0, 0),
    }
}

/// `a` comes before `b`, lexicographically.
pub open spec fn earlier(a: (int, int, int), b: (int, int, int)) -> bool {
    a.0 < b.0 || (a.0 == b.0 && (a.1 < b.1 || (a.1 == b.1 && a.2 < b.2)))
}

/// Every answer that is taken moves the conversation forward: to a later
/// phase, or to a later position in the same one. As each phase's positions
/// are bounded by its lists, the conversation ends.
pub proof fn lemma_progress(v: ExtractionView, answer: Answer)
    requires
        view_wf(v),
        answers(v.stage, answer),
    ensures
        stepped(v, answer) matches Some(w) ==> earlier(stage_rank(v.stage), stage_rank(w.stage)),
{
    match (v.stage, answer) {
        (Stage::Symbols(d), Answer::Symbols(response)) => {
            let document = v.documents[d as int];
            if let Some(m) = symbols_added(file_added(v.model, document), document.0, response) {
                let v1 = ExtractionView { model: m, ..v };
                assert(stage_rank(accesses_start(v1).stage).0 >= 3);
                assert(stage_rank(calls_start(v1).stage).0 >= 1);
            }
        },
        (Stage::Preparing(k), Answer::Prepared(items)) => {
            let p = prepare_model(v.model, v.prepared, items@);
            let v1 = ExtractionView {
                model: p.0,
                prepared: p.1,
                answered: v.answered + items.len() as nat,
                callers: v.callers + shifted(p.2, v.answered),
                ..v
            };
            assert(stage_rank(accesses_start(v1).stage).0 >= 3);
            assert(stage_rank(calling_start(v1).stage).0 >= 2);
        },
        (Stage::Calling(j), Answer::Calls(callees)) => {
            let v1 = ExtractionView { model: calls_model(v.model, v.callers[j as int].1, callees@), ..v };
            assert(stage_rank(accesses_start(v1).stage).0 >= 3);
        },
        _ => {},
    }
}

/// Only what the plan asks for is asked and recorded: without calls in the
/// plan, no call hierarchy is asked for and no `calls` fact is recorded;
/// without accesses, no references or highlights are asked for and no
/// `reads` or `writes` fact is recorded.
pub open spec fn respects_plan(v: ExtractionView) -> bool {
    &&& !v.plan.calls ==> lacks(v.model.edges, Relation::Calls) && !(v.stage is Preparing) && !(
    v.stage is Calling)
    &&& !v.plan.accesses ==> lacks(v.model.edges, Relation::Reads) && lacks(v.model.edges, Relation::Writes)
        && !(v.stage is Referencing) && !(v.stage is Highlighting)
}

/// An extraction starts within its plan.
pub proof fn lemma_start_respects_plan(documents: Seq<DocumentView>, plan: Plan)
    ensures
        respects_plan(start(documents, plan)),
{
}

/// Every answer keeps an extraction within its plan: call and access facts
/// are recorded only where the plan, and so the server's capabilities, ask
/// for them.
pub proof fn lemma_plan_respected(v: ExtractionView, answer: Answer)
    requires
        view_wf(v),
        respects_plan(v),
        answers(v.stage, answer),
    ensures
        stepped(v, answer) matches Some(w) ==> respects_plan(w),
{
    match (v.stage, answer) {
        (Stage::Symbols(d), Answer::Symbols(response)) => {
            let document = v.documents[d as int];
            let w0 = file_added(v.model, document);
            assert(w0.edges == v.model.edges);
            if let Some(SymbolResponse::Nested(symbols)) = response {
                let parent = find(w0.files, document.0).unwrap();
                if !v.plan.calls {
                    lemma_nest_forest_lacks(w0, document.0, parent, false, symbols@, Relation::Calls);
                }
                if !v.plan.accesses {
                    lemma_nest_forest_lacks(w0, document.0, parent, false, symbols@, Relation::Reads);
                    lemma_nest_forest_lacks(w0, document.0, parent, false, symbols@, Relation::Writes);
                }
            }
        },
        (Stage::Preparing(k), Answer::Prepared(items)) => {
            lemma_prepare_keeps_edges(v.model, v.prepared, items@);
        },
        (Stage::Calling(j), Answer::Calls(callees)) => {
            if !v.plan.accesses {
                lemma_calls_lack(v.model, v.callers[j as int].1, callees@, Relation::Reads);
                lemma_calls_lack(v.model, v.callers[j as int].1, callees@, Relation::Writes);
            }
        },
        (Stage::Highlighting(s, g), Answer::Highlights(highlights)) => {
            if !v.plan.calls {
                let group = v.groups[g as int];
                lemma_accesses_lack(v.model, group.0, group.1, highlights@, v.states[s as int].0, Relation::Calls);
            }
        },
        _ => {},
    }
}

/// `r` is the request of the stage.
pub open spec fn asks(v: ExtractionView, r: Request) -> bool {
    match v.stage {
        Stage::Symbols(d) => r matches Request::DocumentSymbols { document } && document == d,
        Stage::Preparing(k) => r matches Request::PrepareCallHierarchy { selection, wait_for_item } && location_key(
            selection,
        ) == v.definitions[k as int].1 && wait_for_item == (k == 0),
        Stage::Calling(j) => r matches Request::OutgoingCalls { item } && item == v.callers[j as int].0,
        Stage::Referencing(s) => r matches Request::References { selection } && location_key(selection)
            == v.states[s as int].1,
        Stage::Highlighting(s, g) => r matches Request::Highlights { uri, position } && uri@ == v.groups[g as int].0
            && position == v.groups[g as int].1[0].start,
        Stage::Done => r is Done,
    }
}

/// The invariant of an extraction view: a well-formed model, a stage whose
/// positions are in range, nodes of the model in every list, a range in
/// every group, and prepared items among those answered.
pub open spec fn view_wf(v: ExtractionView) -> bool {
    &&& model_wf(v.model)
    &&& match v.stage {
        Stage::Symbols(d) => d < v.documents.len(),
        Stage::Preparing(k) => k < v.definitions.len(),
        Stage::Calling(j) => j < v.callers.len(),
        Stage::Referencing(s) => s < v.states.len(),
        Stage::Highlighting(s, g) => s < v.states.len() && g < v.groups.len(),
        Stage::Done => true,
    }
    &&& lists_wf(v)
}

/// Every list of an extraction view holds nodes of the model, every group
/// a range, and the prepared items are among those answered.
pub open spec fn lists_wf(v: ExtractionView) -> bool {
    &&& forall|j: int| 0 <= j < v.callers.len() ==> (#[trigger] v.callers[j]).1 < v.model.nodes.len()
    &&& forall|j: int| 0 <= j < v.callers.len() ==> (#[trigger] v.callers[j]).0 < v.answered
    &&& forall|s: int| 0 <= s < v.states.len() ==> (#[trigger] v.states[s]).0 < v.model.nodes.len()
    &&& forall|g: int| 0 <= g < v.groups.len() ==> (#[trigger] v.groups[g]).1.len() > 0
    &&& v.answered <= usize::MAX
    &&& v.documents.len() <= usize::MAX
    &&& v.definitions.len() <= usize::MAX
    &&& v.callers.len() <= usize::MAX
    &&& v.states.len() <= usize::MAX
    &&& v.groups.len() <= usize::MAX
}

/// Every item that preparing returns is among the answered ones and has a
/// node of the model; nodes only grow.
proof fn lemma_prepared_nodes(w: Model, prepared: Seq<Key>, items: Seq<CallItem>)
    requires
        model_wf(w),
    ensures
        ({
            let p = prepare_model(w, prepared, items);
            &&& model_wf(p.0)
            &&& w.nodes.len() <= p.0.nodes.len() <= w.nodes.len() + items.len()
            &&& forall|i: int| 0 <= i < p.2.len() ==> (#[trigger] p.2[i]).1 < p.0.nodes.len() && p.2[i].0 < items.len()
            &&& p.0.states == w.states
            &&& p.0.callables == w.callables
        }),
    decreases items.len(),
{
    if items.len() > 0 {
        lemma_prepared_nodes(w, prepared, items.drop_last());
        let before = prepare_model(w, prepared, items.drop_last());
        let item = items.last();
        if !before.1.contains(crate::analysis::item_key(item)) {
            lemma_intern_model_wf(before.0, crate::analysis::item_key(item), crate::analysis::item_node(item));
        }
    }
}

/// Interning keeps a model well formed and gives a node of it.
proof fn lemma_intern_model_wf(w: Model, key: Key, node: NodeView)
    requires
        model_wf(w),
    ensures
        model_wf(crate::analysis::intern_model(w, key, node).0),
        crate::analysis::intern_model(w, key, node).1 < crate::analysis::intern_model(w, key, node).0.nodes.len(),
        crate::analysis::intern_model(w, key, node).0.nodes.len() <= w.nodes.len() + 1,
        w.nodes.len() <= crate::analysis::intern_model(w, key, node).0.nodes.len(),
        crate::analysis::intern_model(w, key, node).0.states == w.states,
        crate::analysis::intern_model(w, key, node).0.callables == w.callables,
{
    lemma_first_where(entry_for(w.selections, key), w.selections.len());
    let after = crate::analysis::intern_model(w, key, node).0;
    if find(w.selections, key) is None {
        assert forall|i: int, j: int|
            0 <= i < j < after.selections.len() implies (#[trigger] after.selections[i]).0
                != (#[trigger] after.selections[j]).0 by {
            if j == w.selections.len() {
                assert(!entry_for(w.selections, key)(i));
            } else {
                assert(after.selections[i] == w.selections[i] && after.selections[j] == w.selections[j]);
            }
        }
        assert forall|i: int| 0 <= i < after.selections.len() implies (#[trigger] after.selections[i]).1
            < after.nodes.len() by {
            if i < w.selections.len() {
                assert(after.selections[i] == w.selections[i]);
            }
        }
    } else {
        let i = first_where(entry_for(w.selections, key), w.selections.len()).unwrap();
        assert(w.selections[i].1 < w.nodes.len());
    }
}

/// A URI's entry, once inserted, is found.
proof fn lemma_insert_file_found(files: Seq<(Seq<char>, usize)>, uri: Seq<char>, node: usize)
    ensures
        find(insert_file(files, uri, node), uri) == Some(node),
{
    let after = insert_file(files, uri, node);
    lemma_first_where(entry_for(files, uri), files.len());
    match first_where(entry_for(files, uri), files.len()) {
        Some(i) => {
            assert forall|j: int| 0 <= j < i implies !#[trigger] entry_for(after, uri)(j) by {
                assert(after[j] == files[j]);
                assert(!entry_for(files, uri)(j));
            }
            lemma_first_where_is(entry_for(after, uri), after.len(), i);
        },
        None => {
            assert forall|j: int| 0 <= j < files.len() implies !#[trigger] entry_for(after, uri)(j) by {
                assert(after[j] == files[j]);
                assert(!entry_for(files, uri)(j));
            }
            lemma_first_where_is(entry_for(after, uri), after.len(), files.len() as int);
        },
    }
}

/// An extraction in progress.
pub struct Extraction {
    workspace: WorkspaceGraph,
    documents: Vec<SourceDocument>,
    plan: Plan,
    stage: Stage,
    definitions: Vec<IndexedSymbol>,
    prepared: Vec<Location>,
    answered: usize,
    callers: Vec<(usize, usize)>,
    states: Vec<IndexedSymbol>,
    groups: Vec<ReferenceGroup>,
}

impl Extraction {
    /// The state of the extraction.
    pub closed spec fn view(&self) -> ExtractionView {
        ExtractionView {
            model: self.workspace.model(),
            documents: document_views(self.documents@),
            plan: self.plan,
            stage: self.stage,
            definitions: symbol_keys(self.definitions@),
            prepared: keys(self.prepared@),
            answered: self.answered as nat,
            callers: self.callers@,
            states: symbol_keys(self.states@),
            groups: group_views(self.groups@),
        }
    }

    /// The invariant of the extraction.
    pub closed spec fn wf(&self) -> bool {
        &&& self.workspace.wf()
        &&& view_wf(self.view())
    }

    /// An extraction of `documents` that asks what `plan` says.
    pub fn new(documents: Vec<SourceDocument>, plan: Plan) -> (e: Extraction)
        ensures
            e.wf(),
            e.view() == start(document_views(documents@), plan),
    {
        let workspace = WorkspaceGraph::new();
        let mut e = Extraction {
            workspace,
            documents,
            plan,
            stage: Stage::Done,
            definitions: Vec::new(),
            prepared: Vec::new(),
            answered: 0,
            callers: Vec::new(),
            states: Vec::new(),
            groups: Vec::new(),
        };
        assert(e.view().definitions =~= Seq::<(usize, Key)>::empty());
        assert(e.view().prepared =~= Seq::<Key>::empty());
        assert(e.view().states =~= Seq::<(usize, Key)>::empty());
        assert(e.view().groups =~= Seq::<(Seq<char>, Seq<Range>)>::empty());
        if e.documents.len() > 0 {
            e.stage = Stage::Symbols(0);
        } else {
            e.enter_calls();
        }
        e
    }

    /// Moves to the accesses phase (see `accesses_start`).
    fn enter_accesses(&mut self)
        requires
            old(self).workspace.wf(),
            lists_wf(old(self).view()),
        ensures
            final(self).wf(),
            final(self).view() == accesses_start(old(self).view()),
    {
        if self.plan.accesses {
            let states = self.workspace.state_symbols();
            if states.len() > 0 {
                self.states = states;
                self.stage = Stage::Referencing(0);
                assert(self.view().states == self.view().model.states);
                return;
            }
        }
        self.stage = Stage::Done;
    }

    /// Moves to the calls phase (see `calls_start`).
    fn enter_calls(&mut self)
        requires
            old(self).workspace.wf(),
            lists_wf(old(self).view()),
        ensures
            final(self).wf(),
            final(self).view() == calls_start(old(self).view()),
    {
        if self.plan.calls {
            let definitions = self.workspace.call_definitions();
            if definitions.len() > 0 {
                self.definitions = definitions;
                self.stage = Stage::Preparing(0);
                return;
            }
            proof {
                assert(symbol_keys(definitions@).len() == 0);
            }
        }
        self.enter_accesses();
    }

    /// The request to send next.
    pub fn request(&self) -> (r: Request)
        requires
            self.wf(),
        ensures
            asks(self.view(), r),
    {
        match self.stage {
            Stage::Symbols(d) => Request::DocumentSymbols { document: d },
            Stage::Preparing(k) => {
                let selection = crate::analysis::copy_location(&self.definitions[k].selection);
                assert(symbol_keys(self.definitions@)[k as int].1 == location_key(self.definitions@[k as int].selection));
                Request::PrepareCallHierarchy { selection, wait_for_item: k == 0 }
            },
            Stage::Calling(j) => Request::OutgoingCalls { item: self.callers[j].0 },
            Stage::Referencing(s) => {
                let selection = crate::analysis::copy_location(&self.states[s].selection);
                assert(symbol_keys(self.states@)[s as int].1 == location_key(self.states@[s as int].selection));
                Request::References { selection }
            },
            Stage::Highlighting(_, g) => {
                let group = &self.groups[g];
                assert(group_views(self.groups@)[g as int] == (group.uri@, group.ranges@));
                Request::Highlights { uri: group.uri.clone(), position: group.ranges[0].start }
            },
            Stage::Done => Request::Done,
        }
    }

    /// How many nodes and edges the graph has, and how many items the call
    /// hierarchy requests have answered.
    pub fn counts(&self) -> (r: (usize, usize, usize))
        ensures
            r.0 == self.view().model.nodes.len(),
            r.1 == self.view().model.edges.len(),
            r.2 == self.view().answered,
    {
        let (nodes, edges) = self.workspace.counts();
        (nodes, edges, self.answered)
    }

    /// Takes the server's answer to the request of the stage and moves on
    /// (see `stepped`). A non-empty flat symbol list is refused with the
    /// document's URI.
    pub fn answer(&mut self, answer: Answer) -> (r: Result<(), PlexusError>)
        requires
            old(self).wf(),
            answers(old(self).view().stage, answer),
            fits(old(self).view(), answer),
        ensures
            match stepped(old(self).view(), answer) {
                Some(v) => r is Ok && final(self).wf() && final(self).view() == v,
                None => r matches Err(PlexusError::FlatSymbols { uri }) && old(self).view().stage matches Stage::Symbols(
                    d,
                ) && uri@ == old(self).view().documents[d as int].0 && final(self).wf(),
            },
    {
        let ghost v = self.view();
        match (self.stage, answer) {
            (Stage::Symbols(d), Answer::Symbols(response)) => self.answer_symbols(d, response),
            (Stage::Preparing(k), Answer::Prepared(items)) => {
                self.answer_prepared(k, items);
                Ok(())
            },
            (Stage::Calling(j), Answer::Calls(callees)) => {
                self.answer_calls(j, callees);
                Ok(())
            },
            (Stage::Referencing(s), Answer::References(references)) => {
                self.answer_references(s, references);
                Ok(())
            },
            (Stage::Highlighting(s, g), Answer::Highlights(highlights)) => {
                self.answer_highlights(s, g, highlights);
                Ok(())
            },
            _ => Ok(()),
        }
    }

    /// Adds the file node and the symbols of document `d`.
    fn answer_symbols(&mut self, d: usize, response: Option<SymbolResponse>) -> (r: Result<(), PlexusError>)
        requires
            old(self).wf(),
            old(self).view().stage == Stage::Symbols(d),
            fits(old(self).view(), Answer::Symbols(response)),
        ensures
            match stepped(old(self).view(), Answer::Symbols(response)) {
                Some(v) => r is Ok && final(self).wf() && final(self).view() == v,
                None => r matches Err(PlexusError::FlatSymbols { uri }) && uri@ == old(self).view().documents[d as int].0
                    && final(self).wf(),
            },
    {
        let ghost v = self.view();
        let ghost document = v.documents[d as int];
        assert(document == (self.documents@[d as int].uri@, self.documents@[d as int].text@));
        self.workspace.add_file(&self.documents[d]);
        assert(self.workspace.model() == file_added(v.model, document));
        proof {
            lemma_insert_file_found(v.model.files, document.0, v.model.nodes.len() as usize);
        }
        let uri = self.documents[d].uri.as_str();
        let result = self.workspace.add_symbols(uri, response);
        match result {
            Err(e) => {
                proof {
                    assert forall|j: int| 0 <= j < self.view().callers.len() implies (#[trigger] self.view().callers[j]).1
                        < self.view().model.nodes.len() by {
                        assert(v.callers[j].1 < v.model.nodes.len());
                    }
                    assert forall|t: int| 0 <= t < self.view().states.len() implies (#[trigger] self.view().states[t]).0
                        < self.view().model.nodes.len() by {
                        assert(v.states[t].0 < v.model.nodes.len());
                    }
                }
                Err(e)
            },
            Ok(()) => {
                assert(self.view().model == symbols_added(file_added(v.model, document), document.0, response).unwrap());
                proof {
                    lemma_nest_forest_grows_model(file_added(v.model, document), document.0, response);
                    assert forall|j: int| 0 <= j < self.view().callers.len() implies (#[trigger] self.view().callers[j]).1
                        < self.view().model.nodes.len() by {
                        assert(v.callers[j].1 < v.model.nodes.len());
                    }
                    assert forall|t: int| 0 <= t < self.view().states.len() implies (#[trigger] self.view().states[t]).0
                        < self.view().model.nodes.len() by {
                        assert(v.states[t].0 < v.model.nodes.len());
                    }
                }
                if d < self.documents.len() - 1 {
                    self.stage = Stage::Symbols(d + 1);
                } else {
                    self.stage = Stage::Done;
                    self.enter_calls();
                }
                Ok(())
            },
        }
    }

    /// Interns the items prepared at callable `k`.
    fn answer_prepared(&mut self, k: usize, items: Vec<CallItem>)
        requires
            old(self).wf(),
            old(self).view().stage == Stage::Preparing(k),
            fits(old(self).view(), Answer::Prepared(items)),
        ensures
            final(self).wf(),
            stepped(old(self).view(), Answer::Prepared(items)) == Some(final(self).view()),
    {
        let ghost v = self.view();
        proof {
            lemma_prepared_nodes(v.model, v.prepared, items@);
        }
        let added = self.workspace.add_prepared(&mut self.prepared, &items);
        let ghost p = prepare_model(v.model, v.prepared, items@);
        assert(added@ == p.2);
        let ghost moved = shifted(added@, v.answered);
        let mut callers: Vec<(usize, usize)> = Vec::new();
        std::mem::swap(&mut callers, &mut self.callers);
        assert(callers@ == v.callers);
        let mut i: usize = 0;
        while i < added.len()
            invariant
                i <= added.len(),
                self.answered == v.answered,
                v.answered + items.len() <= usize::MAX,
                forall|t: int| 0 <= t < added.len() ==> (#[trigger] added@[t]).0 < items.len(),
                moved == shifted(added@, v.answered),
                callers@ == v.callers + moved.take(i as int),
            decreases added.len() - i,
        {
            let (position, node) = added[i];
            callers.push((self.answered + position, node));
            assert(moved.take(i + 1) =~= moved.take(i as int).push(moved[i as int]));
            assert(callers@ =~= v.callers + moved.take(i + 1));
            i = i + 1;
        }
        assert(moved.take(added.len() as int) =~= moved);
        assert(callers@.len() == callers.len());
        self.callers = callers;
        self.answered = self.answered + items.len();
        proof {
            let w = self.view();
            assert forall|j: int| 0 <= j < w.callers.len() implies (#[trigger] w.callers[j]).1 < w.model.nodes.len()
                && w.callers[j].0 < w.answered by {
                if j >= v.callers.len() {
                    let t = j - v.callers.len();
                    assert(w.callers[j] == moved[t]);
                    assert(p.2[t].1 < p.0.nodes.len() && p.2[t].0 < items.len());
                } else {
                    assert(w.callers[j] == v.callers[j]);
                }
            }
            assert forall|t: int| 0 <= t < w.states.len() implies (#[trigger] w.states[t]).0 < w.model.nodes.len() by {
                assert(v.states[t].0 < v.model.nodes.len());
            }
        }
        if k < self.definitions.len() - 1 {
            self.stage = Stage::Preparing(k + 1);
        } else if self.callers.len() > 0 {
            self.stage = Stage::Calling(0);
        } else {
            self.stage = Stage::Done;
            self.enter_accesses();
        }
    }

    /// Records the outgoing calls of prepared item `j`.
    fn answer_calls(&mut self, j: usize, callees: Vec<CallItem>)
        requires
            old(self).wf(),
            old(self).view().stage == Stage::Calling(j),
            fits(old(self).view(), Answer::Calls(callees)),
        ensures
            final(self).wf(),
            stepped(old(self).view(), Answer::Calls(callees)) == Some(final(self).view()),
    {
        let ghost v = self.view();
        let caller = self.callers[j].1;
        self.workspace.add_outgoing_calls(caller, &callees);
        proof {
            lemma_calls_nodes(v.model, caller, callees@);
            let w = self.view();
            assert forall|t: int| 0 <= t < w.callers.len() implies (#[trigger] w.callers[t]).1 < w.model.nodes.len() by {
                assert(v.callers[t].1 < v.model.nodes.len());
            }
            assert forall|t: int| 0 <= t < w.states.len() implies (#[trigger] w.states[t]).0 < w.model.nodes.len() by {
                assert(v.states[t].0 < v.model.nodes.len());
            }
        }
        if j < self.callers.len() - 1 {
            self.stage = Stage::Calling(j + 1);
        } else {
            self.stage = Stage::Done;
            self.enter_accesses();
        }
    }

    /// Groups the references to state symbol `s` by document.
    fn answer_references(&mut self, s: usize, references: Vec<Location>)
        requires
            old(self).wf(),
            old(self).view().stage == Stage::Referencing(s),
        ensures
            final(self).wf(),
            stepped(old(self).view(), Answer::References(references)) == Some(final(self).view()),
    {
        let ghost v = self.view();
        let groups = self.workspace.group_references(&references);
        self.groups = groups;
        proof {
            let w = self.view();
            assert forall|g: int| 0 <= g < w.groups.len() implies (#[trigger] w.groups[g]).1.len() > 0 by {
                let listed = known_uris(v.model.files, references@);
                assert(w.groups[g] == (listed[g], crate::analysis::ranges_in(references@, listed[g])));
                assert(listed.contains(listed[g]));
                lemma_groups_not_empty(v.model.files, references@, listed[g]);
            }
        }
        if self.groups.len() > 0 {
            self.stage = Stage::Highlighting(s, 0);
        } else if s < self.states.len() - 1 {
            self.stage = Stage::Referencing(s + 1);
        } else {
            self.stage = Stage::Done;
        }
    }

    /// Records the accesses that the highlights of group `g` show.
    fn answer_highlights(&mut self, s: usize, g: usize, highlights: Vec<Highlight>)
        requires
            old(self).wf(),
            old(self).view().stage == Stage::Highlighting(s, g),
            fits(old(self).view(), Answer::Highlights(highlights)),
        ensures
            final(self).wf(),
            stepped(old(self).view(), Answer::Highlights(highlights)) == Some(final(self).view()),
    {
        let ghost v = self.view();
        let state = self.states[s].node;
        assert(v.states[s as int].0 == state);
        assert(v.groups[g as int] == (self.groups@[g as int].uri@, self.groups@[g as int].ranges@));
        self.workspace.add_accesses(self.groups[g].uri.as_str(), &self.groups[g].ranges, &highlights, state);
        proof {
            lemma_accesses_keep_nodes(v.model, v.groups[g as int].0, v.groups[g as int].1, highlights@, state);
            let w = self.view();
            assert forall|t: int| 0 <= t < w.callers.len() implies (#[trigger] w.callers[t]).1 < w.model.nodes.len() by {
                assert(v.callers[t].1 < v.model.nodes.len());
            }
            assert forall|t: int| 0 <= t < w.states.len() implies (#[trigger] w.states[t]).0 < w.model.nodes.len() by {
                assert(v.states[t].0 < v.model.nodes.len());
            }
        }
        if g < self.groups.len() - 1 {
            self.stage = Stage::Highlighting(s, g + 1);
        } else if s < self.states.len() - 1 {
            self.stage = Stage::Referencing(s + 1);
        } else {
            self.stage = Stage::Done;
        }
    }

    /// The graph built, once the conversation is over or at any point before.
    pub fn finish(self) -> (g: ProgramGraph)
        ensures
            crate::analysis::node_views(graph_nodes(g)) == self.view().model.nodes,
            graph_edges(g) == self.view().model.edges,
    {
        proof {
            self.workspace.lemma_model_graph();
        }
        self.workspace.into_graph()
    }
}

/// Highlights only add edges.
proof fn lemma_accesses_keep_nodes(w: Model, uri: Seq<char>, references: Seq<Range>, highlights: Seq<Highlight>, state: usize)
    ensures
        accesses_model(w, uri, references, highlights, state).nodes == w.nodes,
    decreases highlights.len(),
{
    if highlights.len() > 0 {
        lemma_accesses_keep_nodes(w, uri, references, highlights.drop_last(), state);
    }
}

/// Adding symbols only adds nodes.
proof fn lemma_nest_forest_grows_model(w: Model, uri: Seq<char>, response: Option<SymbolResponse>)
    ensures
        symbols_added(w, uri, response) matches Some(after) ==> after.nodes.len() >= w.nodes.len(),
{
    if let Some(SymbolResponse::Nested(symbols)) = response {
        crate::analysis::lemma_nest_forest_grows(w, uri, find(w.files, uri).unwrap(), false, symbols@);
    }
}

/// Recording calls keeps the lists of callables and state symbols, and only
/// adds nodes.
proof fn lemma_calls_nodes(w: Model, caller: usize, callees: Seq<CallItem>)
    ensures
        calls_model(w, caller, callees).nodes.len() >= w.nodes.len(),
        calls_model(w, caller, callees).states == w.states,
        calls_model(w, caller, callees).files == w.files,
    decreases callees.len(),
{
    if callees.len() > 0 {
        lemma_calls_nodes(w, caller, callees.drop_last());
    }
}

} // verus!

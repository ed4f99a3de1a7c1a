//! Which array positions must agree in extent.
//!
//! Every use of an index in an array access ties the index to one position
//! of one array. All the positions tied to one index must share one extent:
//! together they form an equivalence class. The inspection walks a finished
//! tree, keeps a table of the indexes that the open scopes declare, and
//! collects one class for each index that was used.
//!
//! The walk is stated as the run of a small machine over the events that the
//! tree gives rise to: an index is declared, an index is used at a position,
//! a scope closes. The executable walk is proved to end in the state in
//! which the machine ends. What holds of every run of the machine, and so
//! of every inspection, is proved in `laws` and in `classes`.
use crate::error::{named_fault, ErrorKind, ErrorModel, ParseError};
use crate::model::header::{indexer_model, indexers_model, IndexerModel, RicciIndexer};
use crate::model::lambda::{
    segment_model, segments_model, GroupModel, RicciGroup, RicciSegment, SegmentModel,
};
use crate::token::{
    clone_stream, idents_model, stream_model, Ident, IdentModel, TokenModel, TokenTree,
};
use vstd::prelude::*;

pub mod classes;
pub mod laws;

verus! {

/// What an array position belongs to.
#[derive(Debug, PartialEq, Eq, Clone, Copy, Hash, Structural)]
pub enum HeadKind {
    /// An array of the expression.
    Tensor,
    /// An array that is applied to indexers to give an index.
    Indexer,
}

/// The position that stands for what an indexing array returns, as opposed
/// to the positions of its own dimensions.
pub const RETURN_POSITION: usize = usize::MAX;

/// One position of one array.
#[derive(Debug)]
pub struct IndexingPosition {
    name: Ident,
    position: usize,
    kind: HeadKind,
}

/// What a position is.
pub ghost struct PositionModel {
    pub name: IdentModel,
    pub position: int,
    pub kind: HeadKind,
}

impl View for IndexingPosition {
    type V = PositionModel;

    closed spec fn view(&self) -> PositionModel {
        PositionModel { name: self.name@, position: self.position as int, kind: self.kind }
    }
}

/// The position `position` of the array `name`.
pub open spec fn position_of(name: IdentModel, position: int, kind: HeadKind) -> PositionModel {
    PositionModel { name, position, kind }
}

/// The position that stands for what the indexing array `name` returns.
pub open spec fn result_of(name: IdentModel) -> PositionModel {
    PositionModel { name, position: RETURN_POSITION as int, kind: HeadKind::Indexer }
}

/// Whether two positions are the same position of the same array, wherever
/// the array's name was written.
pub open spec fn same_place(a: PositionModel, b: PositionModel) -> bool {
    a.name.name == b.name.name && a.position == b.position && a.kind == b.kind
}

impl IndexingPosition {
    /// The position `position` of the array `name`.
    pub fn new(name: &Ident, position: usize, kind: HeadKind) -> (r: Self)
        ensures
            r@ == position_of(name@, position as int, kind),
    {
        Self { name: name.clone(), position, kind }
    }

    /// The position that stands for what the indexing array `name` returns.
    pub fn new_indexer_result(name: &Ident) -> (r: Self)
        ensures
            r@ == result_of(name@),
    {
        Self { name: name.clone(), position: RETURN_POSITION, kind: HeadKind::Indexer }
    }

    /// The name of the array.
    pub fn name(&self) -> (r: &Ident)
        ensures
            r@ == self@.name,
    {
        &self.name
    }

    /// The number of the position.
    pub fn position(&self) -> (r: usize)
        ensures
            r as int == self@.position,
    {
        self.position
    }

    /// What the position belongs to.
    pub fn kind(&self) -> (r: HeadKind)
        ensures
            r == self@.kind,
    {
        self.kind
    }

    /// Whether this is the position `position` of an array of kind `kind`
    /// named `name`.
    pub fn is(&self, name: &str, position: usize, kind: HeadKind) -> (b: bool)
        ensures
            b == (self@.name.name == name@ && self@.position == position as int && self@.kind
                == kind),
    {
        self.name.is(name) && self.position == position && self.kind == kind
    }

    /// Whether two positions are the same position of the same array.
    pub fn same_place(&self, other: &IndexingPosition) -> (b: bool)
        ensures
            b == same_place(self@, other@),
    {
        self.name.same_name(&other.name) && self.position == other.position && self.kind
            == other.kind
    }
}

impl Clone for IndexingPosition {
    fn clone(&self) -> (r: Self)
        ensures
            r@ == self@,
    {
        Self { name: self.name.clone(), position: self.position, kind: self.kind }
    }
}

/// The models of a list of positions, in order.
pub open spec fn positions_model(s: Seq<IndexingPosition>) -> Seq<PositionModel> {
    Seq::new(s.len(), |i: int| s[i]@)
}

/// The positions that must share one extent, in the order of discovery.
#[derive(Debug)]
pub struct IndexingPositionEquivalence {
    positions: Vec<IndexingPosition>,
}

impl View for IndexingPositionEquivalence {
    type V = Seq<PositionModel>;

    closed spec fn view(&self) -> Seq<PositionModel> {
        positions_model(self.positions@)
    }
}

impl IndexingPositionEquivalence {
    /// A class without positions.
    pub fn new() -> (r: Self)
        ensures
            r@ == Seq::<PositionModel>::empty(),
    {
        let r = Self { positions: Vec::new() };
        assert(r@ =~= Seq::<PositionModel>::empty());
        r
    }

    /// The positions of the class.
    pub fn positions(&self) -> (r: &Vec<IndexingPosition>)
        ensures
            positions_model(r@) == self@,
    {
        &self.positions
    }

    /// Adds `position` at the end of the class.
    pub fn push(&mut self, position: IndexingPosition)
        ensures
            final(self)@ == old(self)@.push(position@),
    {
        self.positions.push(position);
        assert(self@ =~= old(self)@.push(position@));
    }
}

/// A position that an expression of the host language fills.
#[derive(Debug)]
pub struct PlainValue {
    pub position: IndexingPosition,
    pub expr: Vec<TokenTree>,
}

/// What a plain value is.
pub ghost struct PlainModel {
    pub at: PositionModel,
    pub expr: Seq<TokenModel>,
}

impl View for PlainValue {
    type V = PlainModel;

    open spec fn view(&self) -> PlainModel {
        PlainModel { at: self.position@, expr: stream_model(self.expr@) }
    }
}

/// The models of a list of classes, in order.
pub open spec fn classes_model(s: Seq<IndexingPositionEquivalence>) -> Seq<Seq<PositionModel>> {
    Seq::new(s.len(), |i: int| s[i]@)
}

/// The models of a list of plain values, in order.
pub open spec fn plains_model(s: Seq<PlainValue>) -> Seq<PlainModel> {
    Seq::new(s.len(), |i: int| s[i]@)
}

/// What the inspection of an expression finds. In a mapping that is built by
/// binding, no two plain values fill the same place.
#[derive(Debug)]
pub struct IndexingPositionMapping {
    equivalences: Vec<IndexingPositionEquivalence>,
    plain_values: Vec<PlainValue>,
}

/// What a mapping is: the classes in the order in which they were finished,
/// and the plain values in the order in which their positions were first
/// met.
pub ghost struct MappingModel {
    pub equivalences: Seq<Seq<PositionModel>>,
    pub plain_values: Seq<PlainModel>,
}

impl View for IndexingPositionMapping {
    type V = MappingModel;

    closed spec fn view(&self) -> MappingModel {
        MappingModel {
            equivalences: classes_model(self.equivalences@),
            plain_values: plains_model(self.plain_values@),
        }
    }
}

/// The first entry of `plains`, from `from` on, that fills the place `at`.
pub open spec fn plain_index(plains: Seq<PlainModel>, at: PositionModel, from: int) -> Option<int>
    decreases plains.len() - from,
{
    if !(0 <= from < plains.len()) {
        None
    } else if same_place(plains[from].at, at) {
        Some(from)
    } else {
        plain_index(plains, at, from + 1)
    }
}

/// The plain values after `expr` was bound to the place `at`: a place that
/// was bound before is bound anew, a new place is added at the end.
pub open spec fn bind_plain(plains: Seq<PlainModel>, at: PositionModel, expr: Seq<TokenModel>) -> Seq<
    PlainModel,
> {
    match plain_index(plains, at, 0) {
        Some(i) => plains.update(i, PlainModel { at: plains[i].at, expr }),
        None => plains.push(PlainModel { at, expr }),
    }
}

/// Whether no two of the plain values fill the same place.
pub open spec fn places_differ(plains: Seq<PlainModel>) -> bool {
    forall|i: int, j: int|
        0 <= i < j < plains.len() ==> !same_place((#[trigger] plains[i]).at, (#[trigger] plains[j]).at)
}

/// The search for a place finds a plain value at that place, and finds none
/// only where there is none.
pub proof fn lemma_plain_index(plains: Seq<PlainModel>, at: PositionModel, from: int)
    requires
        0 <= from <= plains.len(),
    ensures
        match plain_index(plains, at, from) {
            Some(k) => from <= k < plains.len() && same_place(plains[k].at, at),
            None => forall|j: int|
                from <= j < plains.len() ==> !same_place((#[trigger] plains[j]).at, at),
        },
    decreases plains.len() - from,
{
    if from < plains.len() && !same_place(plains[from].at, at) {
        lemma_plain_index(plains, at, from + 1);
    }
}

/// Binding a plain value keeps the places apart: a place is bound once.
pub proof fn lemma_bind_plain_keeps_places_apart(
    plains: Seq<PlainModel>,
    at: PositionModel,
    expr: Seq<TokenModel>,
)
    requires
        places_differ(plains),
    ensures
        places_differ(bind_plain(plains, at, expr)),
{
    lemma_plain_index(plains, at, 0);
    let next = bind_plain(plains, at, expr);
    assert forall|i: int, j: int| 0 <= i < j < next.len() implies !same_place(
        (#[trigger] next[i]).at,
        (#[trigger] next[j]).at,
    ) by {
        if plain_index(plains, at, 0) is Some {
            assert(next[i].at == plains[i].at);
            assert(next[j].at == plains[j].at);
        } else {
            assert(next[i] == plains[i]);
            if j < plains.len() {
                assert(next[j] == plains[j]);
            }
        }
    }
}

impl IndexingPositionMapping {
    /// A mapping that holds nothing.
    pub fn new() -> (r: Self)
        ensures
            r@.equivalences == Seq::<Seq<PositionModel>>::empty(),
            r@.plain_values == Seq::<PlainModel>::empty(),
            places_differ(r@.plain_values),
    {
        let r = Self { equivalences: Vec::new(), plain_values: Vec::new() };
        assert(r@.equivalences =~= Seq::<Seq<PositionModel>>::empty());
        assert(r@.plain_values =~= Seq::<PlainModel>::empty());
        r
    }

    /// The classes, in the order in which they were finished.
    pub fn get_equivalences(&self) -> (r: &Vec<IndexingPositionEquivalence>)
        ensures
            classes_model(r@) == self@.equivalences,
    {
        &self.equivalences
    }

    /// The plain values, in the order in which their places were first met.
    pub fn get_plain_values(&self) -> (r: &Vec<PlainValue>)
        ensures
            plains_model(r@) == self@.plain_values,
    {
        &self.plain_values
    }

    /// Adds the finished class `class`.
    pub fn push_equivalence(&mut self, class: IndexingPositionEquivalence)
        ensures
            final(self)@.equivalences == old(self)@.equivalences.push(class@),
            final(self)@.plain_values == old(self)@.plain_values,
    {
        self.equivalences.push(class);
        assert(self@.equivalences =~= old(self)@.equivalences.push(class@));
    }

    /// Binds `expr` to the place `position`.
    pub fn bind_plain(&mut self, position: IndexingPosition, expr: Vec<TokenTree>)
        ensures
            final(self)@.plain_values == bind_plain(
                old(self)@.plain_values,
                position@,
                stream_model(expr@),
            ),
            final(self)@.equivalences == old(self)@.equivalences,
            places_differ(old(self)@.plain_values) ==> places_differ(final(self)@.plain_values),
    {
        proof {
            if places_differ(self@.plain_values) {
                lemma_bind_plain_keeps_places_apart(
                    self@.plain_values,
                    position@,
                    stream_model(expr@),
                );
            }
        }
        let ghost plains = self@.plain_values;
        let mut i: usize = 0;
        while i < self.plain_values.len()
            invariant
                i <= self.plain_values.len(),
                plains == self@.plain_values,
                *self == *old(self),
                plain_index(plains, position@, 0) == plain_index(plains, position@, i as int),
            decreases self.plain_values.len() - i,
        {
            if self.plain_values[i].position.same_place(&position) {
                let kept = self.plain_values[i].position.clone();
                self.plain_values.set(i, PlainValue { position: kept, expr });
                assert(self@.plain_values =~= plains.update(
                    i as int,
                    PlainModel { at: plains[i as int].at, expr: stream_model(expr@) },
                ));
                return ;
            }
            i += 1;
        }
        self.plain_values.push(PlainValue { position, expr });
        assert(self@.plain_values =~= plains.push(
            PlainModel { at: position@, expr: stream_model(expr@) },
        ));
    }
}

/// An index that an open scope declares, with the positions at which it was
/// used so far.
#[derive(Debug)]
pub struct ActiveIndex {
    pub index: Ident,
    pub equivalence: IndexingPositionEquivalence,
}

/// What an active index is.
pub ghost struct RecordModel {
    pub index: IdentModel,
    pub positions: Seq<PositionModel>,
}

impl View for ActiveIndex {
    type V = RecordModel;

    open spec fn view(&self) -> RecordModel {
        RecordModel { index: self.index@, positions: self.equivalence@ }
    }
}

/// The models of a list of active indexes, in order.
pub open spec fn records_model(s: Seq<ActiveIndex>) -> Seq<RecordModel> {
    Seq::new(s.len(), |i: int| s[i]@)
}

/// The indexes that the open scopes declare.
///
/// An index that was never used stands where it was declared. At its first
/// use an index moves to the end of the table, so that the indexes that were
/// used stand in the order of their first use. In a table that is built by
/// declaring, noting and closing, no two indexes share a name.
#[derive(Debug)]
pub struct ScopeTable {
    entries: Vec<ActiveIndex>,
}

impl View for ScopeTable {
    type V = Seq<RecordModel>;

    closed spec fn view(&self) -> Seq<RecordModel> {
        records_model(self.entries@)
    }
}

/// The place in `active`, from `from` on, of the index named `name`.
pub open spec fn name_index(active: Seq<RecordModel>, name: Seq<char>, from: int) -> Option<int>
    decreases active.len() - from,
{
    if !(0 <= from < active.len()) {
        None
    } else if active[from].index.name == name {
        Some(from)
    } else {
        name_index(active, name, from + 1)
    }
}

/// Whether `names` holds an identifier spelled `name`, from `from` on.
pub open spec fn names_hold(names: Seq<IdentModel>, name: Seq<char>, from: int) -> bool
    decreases names.len() - from,
{
    if !(0 <= from < names.len()) {
        false
    } else if names[from].name == name {
        true
    } else {
        names_hold(names, name, from + 1)
    }
}

/// The indexes of `active` that stay open when the scope that declared
/// `names` closes.
pub open spec fn kept_after_close(active: Seq<RecordModel>, names: Seq<IdentModel>) -> Seq<
    RecordModel,
>
    decreases active.len(),
{
    if active.len() == 0 {
        Seq::empty()
    } else if names_hold(names, active[0].index.name, 0) {
        kept_after_close(active.drop_first(), names)
    } else {
        seq![active[0]] + kept_after_close(active.drop_first(), names)
    }
}

/// The classes that are finished when the scope that declared `names`
/// closes: one for each of its indexes that was used, in the order of the
/// table.
pub open spec fn flushed_by_close(active: Seq<RecordModel>, names: Seq<IdentModel>) -> Seq<
    Seq<PositionModel>,
>
    decreases active.len(),
{
    if active.len() == 0 {
        Seq::empty()
    } else if names_hold(names, active[0].index.name, 0) && active[0].positions.len() > 0 {
        seq![active[0].positions] + flushed_by_close(active.drop_first(), names)
    } else {
        flushed_by_close(active.drop_first(), names)
    }
}

/// What happens, one thing after the other, when a tree is walked.
pub ghost enum Event {
    /// A scope declares the index.
    Declare(IdentModel),
    /// The index is used at the position.
    Use { index: IdentModel, at: PositionModel },
    /// The position is filled by what the indexing array returns.
    Link { at: PositionModel, through: IdentModel },
    /// The position is filled by an expression of the host language.
    Plain { at: PositionModel, expr: Seq<TokenModel> },
    /// The scope that declared the indexes closes.
    Close(Seq<IdentModel>),
}

/// What is known at one moment of the walk.
pub ghost struct Inspection {
    /// The classes that are finished.
    pub equivalences: Seq<Seq<PositionModel>>,
    /// The plain values met so far.
    pub plain_values: Seq<PlainModel>,
    /// The indexes that the open scopes declare.
    pub active: Seq<RecordModel>,
}

/// The state before anything was walked.
pub open spec fn initial() -> Inspection {
    Inspection { equivalences: Seq::empty(), plain_values: Seq::empty(), active: Seq::empty() }
}

/// The table after the index at `k` was used at the position `at`: at its
/// first use the index moves to the end.
pub open spec fn used(active: Seq<RecordModel>, k: int, at: PositionModel) -> Seq<RecordModel> {
    let record = RecordModel { index: active[k].index, positions: active[k].positions.push(at) };
    if active[k].positions.len() == 0 {
        active.remove(k).push(record)
    } else {
        active.update(k, record)
    }
}

/// The state after one event, or the fault that the event meets.
pub open spec fn step(state: Inspection, event: Event) -> Result<Inspection, ErrorModel> {
    match event {
        Event::Declare(index) => match name_index(state.active, index.name, 0) {
            Some(_) => Err(named_fault(ErrorKind::DuplicateIndex, index.span, index.name)),
            None => Ok(
                Inspection {
                    active: state.active.push(RecordModel { index, positions: Seq::empty() }),
                    ..state
                },
            ),
        },
        Event::Use { index, at } => match name_index(state.active, index.name, 0) {
            None => Err(named_fault(ErrorKind::UnknownIndex, index.span, index.name)),
            Some(k) => Ok(Inspection { active: used(state.active, k, at), ..state }),
        },
        Event::Link { at, through } => Ok(
            Inspection {
                equivalences: state.equivalences.push(seq![at, result_of(through)]),
                ..state
            },
        ),
        Event::Plain { at, expr } => Ok(
            Inspection { plain_values: bind_plain(state.plain_values, at, expr), ..state },
        ),
        Event::Close(names) => Ok(
            Inspection {
                equivalences: state.equivalences + flushed_by_close(state.active, names),
                active: kept_after_close(state.active, names),
                ..state
            },
        ),
    }
}

/// The state after all of `events`, or the first fault met.
pub open spec fn run(state: Inspection, events: Seq<Event>) -> Result<Inspection, ErrorModel>
    decreases events.len(),
{
    if events.len() == 0 {
        Ok(state)
    } else {
        match step(state, events[0]) {
            Ok(next) => run(next, events.drop_first()),
            Err(e) => Err(e),
        }
    }
}

/// The events of one indexer that fills the position `position` of `head`.
pub open spec fn indexer_events(x: IndexerModel, head: IdentModel, position: int, kind: HeadKind) -> Seq<
    Event,
>
    decreases x,
{
    match x {
        IndexerModel::Direct { index } => seq![
            Event::Use { index, at: position_of(head, position, kind) },
        ],
        IndexerModel::Reverse { index } => seq![
            Event::Use { index, at: position_of(head, position, kind) },
        ],
        IndexerModel::Reindexing { reindexing_name, indexers } => seq![
            Event::Link { at: position_of(head, position, kind), through: reindexing_name },
        ] + indexers_events(indexers, reindexing_name, 0, HeadKind::Indexer),
        IndexerModel::Plain { expr } => seq![
            Event::Plain { at: position_of(head, position, kind), expr },
        ],
    }
}

/// The events of the indexers `s`, which fill the positions of `head` from
/// `from` on.
pub open spec fn indexers_events(s: Seq<IndexerModel>, head: IdentModel, from: int, kind: HeadKind) -> Seq<
    Event,
>
    decreases s,
{
    if s.len() == 0 {
        Seq::empty()
    } else {
        indexer_events(s[0], head, from, kind) + indexers_events(
            s.drop_first(),
            head,
            from + 1,
            kind,
        )
    }
}

/// The declarations of the indexes `s`, in order.
pub open spec fn declarations(s: Seq<IdentModel>) -> Seq<Event> {
    Seq::new(s.len(), |i: int| Event::Declare(s[i]))
}

/// The events of one segment.
pub open spec fn segment_events(x: SegmentModel) -> Seq<Event>
    decreases x,
{
    match x {
        SegmentModel::TensorCall { tensor_name, indexers } => indexers_events(
            indexers,
            tensor_name,
            0,
            HeadKind::Tensor,
        ),
        SegmentModel::SubLambda(lambda) => declarations(lambda.index_declaration)
            + segments_events(lambda.body.segments) + seq![Event::Close(lambda.index_declaration)],
        SegmentModel::SubGroup { group, .. } => segments_events(group.segments),
        SegmentModel::Token(_) => Seq::empty(),
    }
}

/// The events of a sequence of segments.
pub open spec fn segments_events(s: Seq<SegmentModel>) -> Seq<Event>
    decreases s,
{
    if s.len() == 0 {
        Seq::empty()
    } else {
        segment_events(s[0]) + segments_events(s.drop_first())
    }
}

/// What the inspection of the group `g` finds: the classes and plain values
/// of the state in which the run over its events ends.
pub open spec fn inspect_spec(g: GroupModel) -> Result<MappingModel, ErrorModel> {
    match run(initial(), segments_events(g.segments)) {
        Ok(end) => Ok(
            MappingModel { equivalences: end.equivalences, plain_values: end.plain_values },
        ),
        Err(e) => Err(e),
    }
}

/// Running over two sequences of events, one after the other, is running
/// over the first and then, from where it ended, over the second.
pub proof fn lemma_run_concat(state: Inspection, a: Seq<Event>, b: Seq<Event>)
    ensures
        run(state, a + b) == match run(state, a) {
            Ok(middle) => run(middle, b),
            Err(e) => Err(e),
        },
    decreases a.len(),
{
    if a.len() == 0 {
        assert(a + b =~= b);
    } else {
        assert((a + b).drop_first() =~= a.drop_first() + b);
        assert((a + b)[0] == a[0]);
        match step(state, a[0]) {
            Ok(next) => {
                lemma_run_concat(next, a.drop_first(), b);
            },
            Err(_) => {},
        }
    }
}

/// Running over one event is taking one step.
pub proof fn lemma_run_one(state: Inspection, event: Event)
    ensures
        run(state, seq![event]) == step(state, event),
{
    assert(seq![event].drop_first() =~= Seq::<Event>::empty());
    match step(state, event) {
        Ok(next) => {
            assert(run(next, seq![event].drop_first()) == Ok::<Inspection, ErrorModel>(next));
        },
        Err(_) => {},
    }
}

/// The state that a mapping and a table stand for.
pub open spec fn state_of(mapping: MappingModel, table: Seq<RecordModel>) -> Inspection {
    Inspection {
        equivalences: mapping.equivalences,
        plain_values: mapping.plain_values,
        active: table,
    }
}

/// Whether the executable outcome, with the mapping and the table as they
/// were left, is the outcome `want`. After a fault nothing is said of what
/// was left.
pub open spec fn walked(
    r: Result<(), ParseError>,
    mapping: MappingModel,
    table: Seq<RecordModel>,
    want: Result<Inspection, ErrorModel>,
) -> bool {
    match want {
        Ok(end) => r is Ok && state_of(mapping, table) == end,
        Err(e) => r matches Err(got) && got@ == e,
    }
}

impl ScopeTable {
    /// A table without indexes.
    pub fn new() -> (r: Self)
        ensures
            r@ == Seq::<RecordModel>::empty(),
            laws::names_unique(r@),
    {
        let r = Self { entries: Vec::new() };
        assert(r@ =~= Seq::<RecordModel>::empty());
        r
    }

    /// How many indexes are open.
    pub fn len(&self) -> (n: usize)
        ensures
            n == self@.len(),
    {
        self.entries.len()
    }

    /// The place of the index named as `index` is, if it is open.
    pub fn find(&self, index: &Ident) -> (r: Option<usize>)
        ensures
            r matches Some(k) ==> name_index(self@, index@.name, 0) == Some(k as int) && k
                < self@.len(),
            r is None ==> name_index(self@, index@.name, 0) is None,
    {
        let mut i: usize = 0;
        while i < self.entries.len()
            invariant
                i <= self.entries.len(),
                name_index(self@, index@.name, 0) == name_index(self@, index@.name, i as int),
            decreases self.entries.len() - i,
        {
            if self.entries[i].index.same_name(index) {
                return Some(i);
            }
            i += 1;
        }
        None
    }

    /// Opens the index `index`, unless an index of that name is open.
    pub fn declare(&mut self, index: &Ident) -> (r: Result<(), ParseError>)
        ensures
            match name_index(old(self)@, index@.name, 0) {
                Some(_) => r matches Err(e) && e@ == named_fault(
                    ErrorKind::DuplicateIndex,
                    index@.span,
                    index@.name,
                ) && final(self)@ == old(self)@,
                None => r is Ok && final(self)@ == old(self)@.push(
                    RecordModel { index: index@, positions: Seq::empty() },
                ),
            },
            laws::names_unique(old(self)@) && r is Ok ==> laws::names_unique(final(self)@),
    {
        proof {
            if laws::names_unique(self@) {
                laws::lemma_step_keeps_names_unique(
                    state_of(
                        MappingModel { equivalences: Seq::empty(), plain_values: Seq::empty() },
                        self@,
                    ),
                    Event::Declare(index@),
                );
            }
        }
        match self.find(index) {
            Some(_) => create_duplicated_index_error(index),
            None => {
                self.entries.push(
                    ActiveIndex {
                        index: index.clone(),
                        equivalence: IndexingPositionEquivalence::new(),
                    },
                );
                assert(self@ =~= old(self)@.push(
                    RecordModel { index: index@, positions: Seq::empty() },
                ));
                Ok(())
            },
        }
    }

    /// Notes that the index `index` is used at `position`, unless no index
    /// of that name is open.
    pub fn record(&mut self, index: &Ident, position: IndexingPosition) -> (r: Result<
        (),
        ParseError,
    >)
        ensures
            match name_index(old(self)@, index@.name, 0) {
                None => r matches Err(e) && e@ == named_fault(
                    ErrorKind::UnknownIndex,
                    index@.span,
                    index@.name,
                ) && final(self)@ == old(self)@,
                Some(k) => r is Ok && final(self)@ == used(old(self)@, k, position@),
            },
            laws::names_unique(old(self)@) && r is Ok ==> laws::names_unique(final(self)@),
    {
        proof {
            if laws::names_unique(self@) {
                laws::lemma_step_keeps_names_unique(
                    state_of(
                        MappingModel { equivalences: Seq::empty(), plain_values: Seq::empty() },
                        self@,
                    ),
                    Event::Use { index: index@, at: position@ },
                );
            }
        }
        match self.find(index) {
            None => create_unknown_index_error(index),
            Some(k) => {
                let ghost before = self@;
                assert(name_index(before, index@.name, 0) == Some(k as int));
                let first_use = self.entries[k].equivalence.positions().len() == 0;
                let mut entry = self.entries.remove(k);
                entry.equivalence.push(position);
                if first_use {
                    self.entries.push(entry);
                } else {
                    self.entries.insert(k, entry);
                }
                assert(self@ =~= used(before, k as int, position@));
                Ok(())
            },
        }
    }

    /// Closes the scope that declared `names`: its indexes leave the table,
    /// and the classes of those that were used are added to `mapping`.
    pub fn close(&mut self, names: &Vec<Ident>, mapping: &mut IndexingPositionMapping)
        ensures
            final(self)@ == kept_after_close(old(self)@, idents_model(names@)),
            final(mapping)@.equivalences == old(mapping)@.equivalences + flushed_by_close(
                old(self)@,
                idents_model(names@),
            ),
            final(mapping)@.plain_values == old(mapping)@.plain_values,
            laws::names_unique(old(self)@) ==> laws::names_unique(final(self)@),
    {
        proof {
            if laws::names_unique(self@) {
                laws::lemma_close_keeps_names_unique(self@, idents_model(names@));
            }
        }
        let ghost declared = idents_model(names@);
        let mut kept: Vec<ActiveIndex> = Vec::new();
        assert(records_model(kept@) =~= Seq::<RecordModel>::empty());
        assert(old(mapping)@.equivalences + Seq::<Seq<PositionModel>>::empty()
            =~= old(mapping)@.equivalences);
        assert(records_model(kept@) + kept_after_close(self@, declared) =~= kept_after_close(
            self@,
            declared,
        ));
        let ghost mut flushed: Seq<Seq<PositionModel>> = Seq::empty();
        assert(flushed + flushed_by_close(self@, declared) =~= flushed_by_close(self@, declared));
        while self.entries.len() > 0
            invariant
                declared == idents_model(names@),
                kept_after_close(old(self)@, declared) == records_model(kept@) + kept_after_close(
                    self@,
                    declared,
                ),
                flushed_by_close(old(self)@, declared) == flushed + flushed_by_close(
                    self@,
                    declared,
                ),
                mapping@.equivalences == old(mapping)@.equivalences + flushed,
                mapping@.plain_values == old(mapping)@.plain_values,
            decreases self.entries.len(),
        {
            let ghost before = self@;
            let ghost kept_before = records_model(kept@);
            let ghost flushed_before = flushed;
            let entry = self.entries.remove(0);
            assert(self@ =~= before.drop_first());
            assert(entry@ == before[0]);
            if holds_name(names, &entry.index) {
                if entry.equivalence.positions().len() > 0 {
                    proof {
                        flushed = flushed.push(entry@.positions);
                        assert(flushed_before + (seq![entry@.positions] + flushed_by_close(
                            self@,
                            declared,
                        )) =~= flushed + flushed_by_close(self@, declared));
                        assert(old(mapping)@.equivalences + flushed =~= (
                        old(mapping)@.equivalences + flushed_before).push(entry@.positions));
                    }
                    mapping.push_equivalence(entry.equivalence);
                }
            } else {
                kept.push(entry);
                proof {
                    assert(records_model(kept@) =~= kept_before.push(entry@));
                    assert(kept_before + (seq![entry@] + kept_after_close(self@, declared))
                        =~= records_model(kept@) + kept_after_close(self@, declared));
                }
            }
        }
        proof {
            assert(records_model(kept@) + Seq::<RecordModel>::empty() =~= records_model(kept@));
            assert(flushed + Seq::<Seq<PositionModel>>::empty() =~= flushed);
        }
        self.entries = kept;
    }
}

/// Whether `names` holds an identifier spelled as `index` is.
pub fn holds_name(names: &Vec<Ident>, index: &Ident) -> (b: bool)
    ensures
        b == names_hold(idents_model(names@), index@.name, 0),
{
    let mut i: usize = 0;
    while i < names.len()
        invariant
            i <= names.len(),
            names_hold(idents_model(names@), index@.name, 0) == names_hold(
                idents_model(names@),
                index@.name,
                i as int,
            ),
        decreases names.len() - i,
    {
        if names[i].same_name(index) {
            return true;
        }
        i += 1;
    }
    false
}

/// The fault of an index that no open scope declares.
fn create_unknown_index_error(index: &Ident) -> (r: Result<(), ParseError>)
    ensures
        r matches Err(e) && e@ == named_fault(ErrorKind::UnknownIndex, index@.span, index@.name),
{
    Err(ParseError::about(ErrorKind::UnknownIndex, index.span, &index.name))
}

/// The fault of an index that an open scope already declares.
fn create_duplicated_index_error(index: &Ident) -> (r: Result<(), ParseError>)
    ensures
        r matches Err(e) && e@ == named_fault(
            ErrorKind::DuplicateIndex,
            index@.span,
            index@.name,
        ),
{
    Err(ParseError::about(ErrorKind::DuplicateIndex, index.span, &index.name))
}

/// Walks the indexer that fills the position `position` of `head_name`.
pub fn inspect_indexers(
    head_name: &Ident,
    position: usize,
    kind: HeadKind,
    indexer: &RicciIndexer,
    mapping: &mut IndexingPositionMapping,
    equivalences_per_index: &mut ScopeTable,
) -> (r: Result<(), ParseError>)
    ensures
        walked(
            r,
            final(mapping)@,
            final(equivalences_per_index)@,
            run(
                state_of(old(mapping)@, old(equivalences_per_index)@),
                indexer_events(indexer@, head_name@, position as int, kind),
            ),
        ),
        (indexer@ is Direct || indexer@ is Reverse) && r is Err ==> final(mapping)@ == old(
            mapping,
        )@ && final(equivalences_per_index)@ == old(equivalences_per_index)@,
    decreases indexer, 0nat,
{
    let ghost start = state_of(mapping@, equivalences_per_index@);
    match indexer {
        RicciIndexer::Direct { index } => {
            proof {
                lemma_run_one(
                    start,
                    Event::Use {
                        index: index@,
                        at: position_of(head_name@, position as int, kind),
                    },
                );
            }
            equivalences_per_index.record(index, IndexingPosition::new(head_name, position, kind))
        },
        RicciIndexer::Reverse { index } => {
            proof {
                lemma_run_one(
                    start,
                    Event::Use {
                        index: index@,
                        at: position_of(head_name@, position as int, kind),
                    },
                );
            }
            equivalences_per_index.record(index, IndexingPosition::new(head_name, position, kind))
        },
        RicciIndexer::Reindexing { reindexing_name, indexers } => {
            let ghost link = Event::Link {
                at: position_of(head_name@, position as int, kind),
                through: reindexing_name@,
            };
            let ghost inner = indexers_events(
                indexers_model(indexers@),
                reindexing_name@,
                0,
                HeadKind::Indexer,
            );
            proof {
                lemma_run_one(start, link);
                lemma_run_concat(start, seq![link], inner);
            }
            let mut class = IndexingPositionEquivalence::new();
            class.push(IndexingPosition::new(head_name, position, kind));
            class.push(IndexingPosition::new_indexer_result(reindexing_name));
            assert(class@ =~= seq![
                position_of(head_name@, position as int, kind),
                result_of(reindexing_name@),
            ]);
            mapping.push_equivalence(class);
            inspect_indexer_list(
                reindexing_name,
                HeadKind::Indexer,
                indexers,
                mapping,
                equivalences_per_index,
            )
        },
        RicciIndexer::Plain { expr } => {
            proof {
                lemma_run_one(
                    start,
                    Event::Plain {
                        at: position_of(head_name@, position as int, kind),
                        expr: stream_model(expr@),
                    },
                );
            }
            mapping.bind_plain(
                IndexingPosition::new(head_name, position, kind),
                clone_stream(expr),
            );
            Ok(())
        },
    }
}

/// Walks the indexers that fill the positions of `head_name`, from the first
/// position on.
pub fn inspect_indexer_list(
    head_name: &Ident,
    kind: HeadKind,
    indexers: &Vec<RicciIndexer>,
    mapping: &mut IndexingPositionMapping,
    equivalences_per_index: &mut ScopeTable,
) -> (r: Result<(), ParseError>)
    ensures
        walked(
            r,
            final(mapping)@,
            final(equivalences_per_index)@,
            run(
                state_of(old(mapping)@, old(equivalences_per_index)@),
                indexers_events(indexers_model(indexers@), head_name@, 0, kind),
            ),
        ),
    decreases indexers, 1nat,
{
    let ghost start = state_of(mapping@, equivalences_per_index@);
    let ghost all = indexers_model(indexers@);
    let mut position: usize = 0;
    assert(all.skip(0) =~= all);
    while position < indexers.len()
        invariant
            position <= indexers.len(),
            start == state_of(old(mapping)@, old(equivalences_per_index)@),
            all == indexers_model(indexers@),
            all.len() == indexers.len(),
            run(start, indexers_events(all, head_name@, 0, kind)) == run(
                state_of(mapping@, equivalences_per_index@),
                indexers_events(all.skip(position as int), head_name@, position as int, kind),
            ),
        decreases indexers.len() - position,
    {
        let ghost here = state_of(mapping@, equivalences_per_index@);
        proof {
            let rest = all.skip(position as int);
            assert(rest.drop_first() =~= all.skip(position + 1));
            assert(rest[0] == indexer_model(indexers@[position as int]));
            assert(indexers_events(rest, head_name@, position as int, kind) == indexer_events(
                rest[0],
                head_name@,
                position as int,
                kind,
            ) + indexers_events(rest.drop_first(), head_name@, position + 1, kind));
            lemma_run_concat(
                here,
                indexer_events(rest[0], head_name@, position as int, kind),
                indexers_events(rest.drop_first(), head_name@, position + 1, kind),
            );
        }
        match inspect_indexers(
            head_name,
            position,
            kind,
            &indexers[position],
            mapping,
            equivalences_per_index,
        ) {
            Err(e) => {
                return Err(e);
            },
            Ok(()) => {},
        }
        position += 1;
    }
    assert(all.skip(position as int) =~= Seq::<IndexerModel>::empty());
    Ok(())
}

/// Walks the segments of a group.
pub fn inspect_segments(
    segments: &Vec<RicciSegment>,
    mapping: &mut IndexingPositionMapping,
    equivalences_per_index: &mut ScopeTable,
) -> (r: Result<(), ParseError>)
    ensures
        walked(
            r,
            final(mapping)@,
            final(equivalences_per_index)@,
            run(
                state_of(old(mapping)@, old(equivalences_per_index)@),
                segments_events(segments_model(segments@)),
            ),
        ),
    decreases segments, 1nat,
{
    let ghost start = state_of(mapping@, equivalences_per_index@);
    let ghost all = segments_model(segments@);
    let mut i: usize = 0;
    assert(all.skip(0) =~= all);
    while i < segments.len()
        invariant
            i <= segments.len(),
            start == state_of(old(mapping)@, old(equivalences_per_index)@),
            all == segments_model(segments@),
            all.len() == segments.len(),
            run(start, segments_events(all)) == run(
                state_of(mapping@, equivalences_per_index@),
                segments_events(all.skip(i as int)),
            ),
        decreases segments.len() - i,
    {
        let ghost here = state_of(mapping@, equivalences_per_index@);
        proof {
            let rest = all.skip(i as int);
            assert(rest.drop_first() =~= all.skip(i + 1));
            assert(rest[0] == segment_model(segments@[i as int]));
            assert(segments_events(rest) == segment_events(rest[0]) + segments_events(
                rest.drop_first(),
            ));
            lemma_run_concat(here, segment_events(rest[0]), segments_events(rest.drop_first()));
        }
        match inspect_segment(&segments[i], mapping, equivalences_per_index) {
            Err(e) => {
                return Err(e);
            },
            Ok(()) => {},
        }
        i += 1;
    }
    assert(all.skip(i as int) =~= Seq::<SegmentModel>::empty());
    Ok(())
}

/// Opens the indexes `indexes`, one after the other.
pub fn declare_indexes(indexes: &Vec<Ident>, equivalences_per_index: &mut ScopeTable) -> (r: Result<
    (),
    ParseError,
>)
    ensures
        forall|mapping: MappingModel|
            walked(
                r,
                mapping,
                final(equivalences_per_index)@,
                #[trigger] run(
                    state_of(mapping, old(equivalences_per_index)@),
                    declarations(idents_model(indexes@)),
                ),
            ),
{
    let ghost start = equivalences_per_index@;
    let ghost all = declarations(idents_model(indexes@));
    let mut i: usize = 0;
    assert(all.skip(0) =~= all);
    while i < indexes.len()
        invariant
            i <= indexes.len(),
            start == old(equivalences_per_index)@,
            all == declarations(idents_model(indexes@)),
            all.len() == indexes.len(),
            forall|mapping: MappingModel| #[trigger]
                run(state_of(mapping, start), all) == run(
                    state_of(mapping, equivalences_per_index@),
                    all.skip(i as int),
                ),
        decreases indexes.len() - i,
    {
        let ghost here = equivalences_per_index@;
        let ghost rest = all.skip(i as int);
        assert(rest.drop_first() =~= all.skip(i + 1));
        assert(rest[0] == Event::Declare(indexes@[i as int]@));
        match equivalences_per_index.declare(&indexes[i]) {
            Err(e) => {
                assert forall|mapping: MappingModel| #[trigger]
                    run(state_of(mapping, start), all) == Err::<Inspection, ErrorModel>(e@) by {
                    assert(run(state_of(mapping, start), all) == run(
                        state_of(mapping, here),
                        rest,
                    ));
                    assert(step(state_of(mapping, here), rest[0]) is Err);
                }
                return Err(e);
            },
            Ok(()) => {},
        }
        assert forall|mapping: MappingModel| #[trigger]
            run(state_of(mapping, start), all) == run(
                state_of(mapping, equivalences_per_index@),
                all.skip(i + 1),
            ) by {
            assert(run(state_of(mapping, start), all) == run(state_of(mapping, here), rest));
        }
        i += 1;
    }
    assert(all.skip(i as int) =~= Seq::<Event>::empty());
    Ok(())
}

/// Walks one segment.
pub fn inspect_segment(
    segment: &RicciSegment,
    mapping: &mut IndexingPositionMapping,
    equivalences_per_index: &mut ScopeTable,
) -> (r: Result<(), ParseError>)
    ensures
        walked(
            r,
            final(mapping)@,
            final(equivalences_per_index)@,
            run(
                state_of(old(mapping)@, old(equivalences_per_index)@),
                segment_events(segment@),
            ),
        ),
    decreases segment, 0nat,
{
    let ghost start = state_of(mapping@, equivalences_per_index@);
    match segment {
        RicciSegment::TensorCall { tensor_name, indexers } => inspect_indexer_list(
            tensor_name,
            HeadKind::Tensor,
            indexers,
            mapping,
            equivalences_per_index,
        ),
        RicciSegment::SubLambda(lambda) => {
            let ghost declared = lambda.index_declaration@;
            let ghost opening = declarations(declared);
            let ghost body = segments_events(segments_model(lambda.body.segments@));
            let ghost closing = seq![Event::Close(declared)];
            proof {
                lemma_run_concat(start, opening + body, closing);
                lemma_run_concat(start, opening, body);
            }
            match declare_indexes(&lambda.index_declaration.indexes, equivalences_per_index) {
                Err(e) => {
                    assert(run(start, opening) is Err);
                    return Err(e);
                },
                Ok(()) => {},
            }
            let ghost opened = state_of(mapping@, equivalences_per_index@);
            assert(run(start, opening) == Ok::<Inspection, ErrorModel>(opened));
            match inspect_segments(&lambda.body.segments, mapping, equivalences_per_index) {
                Err(e) => {
                    return Err(e);
                },
                Ok(()) => {},
            }
            let ghost walked_body = state_of(mapping@, equivalences_per_index@);
            proof {
                lemma_run_one(walked_body, Event::Close(declared));
            }
            equivalences_per_index.close(&lambda.index_declaration.indexes, mapping);
            Ok(())
        },
        RicciSegment::SubGroup { group, .. } => inspect_segments(
            &group.segments,
            mapping,
            equivalences_per_index,
        ),
        RicciSegment::Token(_) => Ok(()),
    }
}

/// Walks a group. Where the walk meets no fault, the classes that were
/// finished before stay in their places, and the table holds the names
/// again that it held before: every scope that opened has closed.
pub fn inspect_group(
    group: &RicciGroup,
    mapping: &mut IndexingPositionMapping,
    equivalences_per_index: &mut ScopeTable,
) -> (r: Result<(), ParseError>)
    ensures
        walked(
            r,
            final(mapping)@,
            final(equivalences_per_index)@,
            run(
                state_of(old(mapping)@, old(equivalences_per_index)@),
                segments_events(group@.segments),
            ),
        ),
        r is Ok ==> old(mapping)@.equivalences.len() <= final(mapping)@.equivalences.len()
            && forall|c: int|
            0 <= c < old(mapping)@.equivalences.len() ==> #[trigger] final(mapping)@.equivalences[c]
                == old(mapping)@.equivalences[c],
        r is Ok && laws::names_unique(old(equivalences_per_index)@) ==> forall|name: Seq<char>| #[trigger]
            laws::is_open(final(equivalences_per_index)@, name) <==> laws::is_open(
                old(equivalences_per_index)@,
                name,
            ),
{
    let ghost start = state_of(mapping@, equivalences_per_index@);
    let r = inspect_segments(&group.segments, mapping, equivalences_per_index);
    proof {
        if r is Ok {
            classes::lemma_classes_keep_their_places(start, segments_events(group@.segments));
            if laws::names_unique(start.active) {
                assert forall|name: Seq<char>| #[trigger]
                    laws::is_open(equivalences_per_index@, name) <==> laws::is_open(
                        start.active,
                        name,
                    ) by {
                    classes::lemma_walk_restores_open_names(start, group@.segments, name);
                }
            }
        }
    }
    r
}

/// Finds the classes of positions and the plain values of a group, or the
/// first fault in its use of indexes.
pub fn inspect(group: &RicciGroup) -> (r: Result<IndexingPositionMapping, ParseError>)
    ensures
        match inspect_spec(group@) {
            Ok(found) => r matches Ok(mapping) && mapping@ == found,
            Err(e) => r matches Err(got) && got@ == e,
        },
        r matches Ok(mapping) ==> classes::no_class_is_empty(mapping@.equivalences)
            && places_differ(mapping@.plain_values),
{
    let mut mapping = IndexingPositionMapping::new();
    let mut equivalences_per_index = ScopeTable::new();
    assert(state_of(mapping@, equivalences_per_index@) == initial());
    proof {
        classes::lemma_run_finishes_no_empty_class(initial(), segments_events(group@.segments));
        classes::lemma_run_keeps_places_apart(initial(), segments_events(group@.segments));
    }
    match inspect_group(group, &mut mapping, &mut equivalences_per_index) {
        Ok(()) => Ok(mapping),
        Err(e) => Err(e),
    }
}

} // verus!

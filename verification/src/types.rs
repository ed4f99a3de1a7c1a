//! The tree that the inline parser builds, and its table of index uses.
//!
//! A scope is written `for i j => body` or, shorter, `i j $ body`; either way
//! its body runs to the end of the enclosing group. In the tree the indexes
//! of a scope stand innermost first. The parser notes, while it reads, at
//! which position of which array each index is used. The table of the
//! indexes is local to the scopes: an index is open from its declaration to
//! the end of its scope, and a name is free again once its scope has closed.
use crate::token::{idents_model, Ident, IdentModel, Span, TokenModel, TokenTree};
use vstd::prelude::*;

verus! {

/// A scope: its indexes, innermost first, and its body.
///
/// Two scopes that stand side by side may declare the same name. To tell
/// their indexes apart, each index has a rank: how many indexes of its name
/// were declared before it in the expression. `inverted_ranks` holds the
/// ranks in the order of `inverted_indexes`; an index without an entry has
/// the rank 0.
#[derive(Debug)]
pub struct EinsteinFunction {
    pub inverted_indexes: Vec<Ident>,
    pub inverted_ranks: Vec<usize>,
    pub sequence: EinsteinSequence,
}

/// One use of an index: the position of an array that it fills.
#[derive(Debug)]
pub struct EinsteinPosition {
    pub tensor_name: Ident,
    pub position: usize,
    pub index_name: Ident,
}

/// One piece of a sequence.
#[derive(Debug)]
pub enum EinsteinAlternative {
    /// A scope.
    Func(EinsteinFunction),
    /// A token, passed through as it is.
    Tree(TokenTree),
    /// A nested sequence.
    Sequence(EinsteinSequence),
    /// An access to the array `tensor_name` at the indexes `indexes`.
    TensorAccess { tensor_name: Ident, span: Span, indexes: Vec<Ident> },
}

/// A sequence of pieces, written in parentheses or not.
#[derive(Debug)]
pub struct EinsteinSequence {
    pub span: Span,
    pub use_parens: bool,
    pub content: Vec<EinsteinAlternative>,
}

/// What a scope is.
pub ghost struct FunctionModel {
    pub inverted_indexes: Seq<IdentModel>,
    pub inverted_ranks: Seq<usize>,
    pub sequence: SequenceModel,
}

/// What a use of an index is.
pub ghost struct UseModel {
    pub tensor_name: IdentModel,
    pub position: int,
    pub index_name: IdentModel,
}

/// What a piece of a sequence is.
pub ghost enum AlternativeModel {
    Func(FunctionModel),
    Tree(TokenModel),
    Sequence(SequenceModel),
    TensorAccess { tensor_name: IdentModel, span: Span, indexes: Seq<IdentModel> },
}

/// What a sequence is.
pub ghost struct SequenceModel {
    pub span: Span,
    pub use_parens: bool,
    pub content: Seq<AlternativeModel>,
}

/// The model of one piece.
pub open spec fn alternative_model(x: EinsteinAlternative) -> AlternativeModel
    decreases x,
{
    match x {
        EinsteinAlternative::Func(f) => AlternativeModel::Func(function_model(f)),
        EinsteinAlternative::Tree(t) => AlternativeModel::Tree(t@),
        EinsteinAlternative::Sequence(s) => AlternativeModel::Sequence(sequence_model(s)),
        EinsteinAlternative::TensorAccess { tensor_name, span, indexes } => {
            AlternativeModel::TensorAccess {
                tensor_name: tensor_name@,
                span,
                indexes: idents_model(indexes@),
            }
        },
    }
}

/// The models of a list of pieces, in order.
pub open spec fn content_model(s: Seq<EinsteinAlternative>) -> Seq<AlternativeModel>
    decreases s,
{
    Seq::new(
        s.len(),
        |i: int|
            if 0 <= i < s.len() {
                alternative_model(s[i])
            } else {
                arbitrary()
            },
    )
}

/// The model of a sequence.
pub open spec fn sequence_model(s: EinsteinSequence) -> SequenceModel
    decreases s,
{
    SequenceModel { span: s.span, use_parens: s.use_parens, content: content_model(s.content@) }
}

/// The model of a scope.
pub open spec fn function_model(f: EinsteinFunction) -> FunctionModel
    decreases f,
{
    FunctionModel {
        inverted_indexes: idents_model(f.inverted_indexes@),
        inverted_ranks: f.inverted_ranks@,
        sequence: sequence_model(f.sequence),
    }
}

impl View for EinsteinAlternative {
    type V = AlternativeModel;

    open spec fn view(&self) -> AlternativeModel {
        alternative_model(*self)
    }
}

impl View for EinsteinSequence {
    type V = SequenceModel;

    open spec fn view(&self) -> SequenceModel {
        sequence_model(*self)
    }
}

impl View for EinsteinFunction {
    type V = FunctionModel;

    open spec fn view(&self) -> FunctionModel {
        function_model(*self)
    }
}

impl View for EinsteinPosition {
    type V = UseModel;

    open spec fn view(&self) -> UseModel {
        UseModel {
            tensor_name: self.tensor_name@,
            position: self.position as int,
            index_name: self.index_name@,
        }
    }
}

/// The models of a list of uses, in order.
pub open spec fn uses_model(s: Seq<EinsteinPosition>) -> Seq<UseModel> {
    Seq::new(s.len(), |i: int| s[i]@)
}

/// The model of the first `n + 1` pieces is the model of the first `n`,
/// followed by the model of piece `n`.
pub proof fn lemma_content_model_take(s: Seq<EinsteinAlternative>, n: int)
    requires
        0 <= n < s.len(),
    ensures
        content_model(s.take(n + 1)) == content_model(s.take(n)).push(alternative_model(s[n])),
        content_model(s.take(n + 1)).drop_last() == content_model(s.take(n)),
        content_model(s)[n] == alternative_model(s[n]),
        content_model(s).len() == s.len(),
{
    assert(content_model(s.take(n + 1)) =~= content_model(s.take(n)).push(alternative_model(s[n])));
    assert(content_model(s.take(n + 1)).drop_last() =~= content_model(s.take(n)));
}

impl EinsteinFunction {
    /// The scope of the indexes `inverted_indexes`, innermost first, with
    /// the body `sequence`.
    pub fn new(inverted_indexes: Vec<Ident>, sequence: EinsteinSequence) -> (r: Self)
        ensures
            r@ == (FunctionModel {
                inverted_indexes: idents_model(inverted_indexes@),
                inverted_ranks: Seq::empty(),
                sequence: sequence@,
            }),
    {
        EinsteinFunction { sequence, inverted_indexes, inverted_ranks: Vec::new() }
    }

    /// The scope of the indexes `inverted_indexes`, innermost first, with
    /// the ranks `inverted_ranks` and the body `sequence`.
    pub fn ranked(
        inverted_indexes: Vec<Ident>,
        inverted_ranks: Vec<usize>,
        sequence: EinsteinSequence,
    ) -> (r: Self)
        ensures
            r@ == (FunctionModel {
                inverted_indexes: idents_model(inverted_indexes@),
                inverted_ranks: inverted_ranks@,
                sequence: sequence@,
            }),
    {
        EinsteinFunction { sequence, inverted_indexes, inverted_ranks }
    }
}

/// Whether the piece is a token that is an identifier.
pub open spec fn is_identifier_piece(x: AlternativeModel) -> bool {
    x matches AlternativeModel::Tree(t) && t is Ident
}

/// Where the identifiers that end `content` start: every piece from there on
/// is an identifier, and the piece before, if there is one, is none.
pub open spec fn trailing_start(content: Seq<AlternativeModel>) -> int
    decreases content.len(),
{
    if content.len() > 0 && is_identifier_piece(content.last()) {
        trailing_start(content.drop_last())
    } else {
        content.len() as int
    }
}

/// The identifiers that end `content`, last first.
pub open spec fn trailing_inverted(content: Seq<AlternativeModel>) -> Seq<IdentModel>
    decreases content.len(),
{
    if content.len() > 0 && is_identifier_piece(content.last()) {
        seq![content.last()->Tree_0->Ident_0] + trailing_inverted(content.drop_last())
    } else {
        Seq::empty()
    }
}

impl EinsteinSequence {
    /// The empty sequence of a whole expression.
    pub fn initial() -> (r: Self)
        ensures
            r@ == (SequenceModel {
                span: Span::CallSite,
                use_parens: false,
                content: Seq::empty(),
            }),
    {
        let r = Self { span: Span::CallSite, use_parens: false, content: Vec::new() };
        assert(r@.content =~= Seq::<AlternativeModel>::empty());
        r
    }

    /// The empty sequence of a group in parentheses.
    pub fn with_parens(span: Span) -> (r: Self)
        ensures
            r@ == (SequenceModel { span, use_parens: true, content: Seq::empty() }),
    {
        let r = Self { span, use_parens: true, content: Vec::new() };
        assert(r@.content =~= Seq::<AlternativeModel>::empty());
        r
    }

    /// The empty sequence of a group without parentheses.
    pub fn naked(span: Span) -> (r: Self)
        ensures
            r@ == (SequenceModel { span, use_parens: false, content: Seq::empty() }),
    {
        let r = Self { span, use_parens: false, content: Vec::new() };
        assert(r@.content =~= Seq::<AlternativeModel>::empty());
        r
    }

    /// Adds the piece `piece` at the end.
    pub fn push(&mut self, piece: EinsteinAlternative)
        ensures
            final(self)@ == (SequenceModel {
                content: old(self)@.content.push(piece@),
                ..old(self)@
            }),
    {
        self.content.push(piece);
        assert(self@.content =~= old(self)@.content.push(piece@));
    }

    /// Adds the token `token` at the end.
    pub fn push_token(&mut self, token: TokenTree)
        ensures
            final(self)@ == (SequenceModel {
                content: old(self)@.content.push(AlternativeModel::Tree(token@)),
                ..old(self)@
            }),
    {
        self.push(EinsteinAlternative::Tree(token));
    }

    /// Takes the identifiers that end the sequence out of it, and gives
    /// them last first.
    pub fn extract_previous_identifiers(&mut self) -> (inverted_identifiers: Vec<Ident>)
        ensures
            idents_model(inverted_identifiers@) == trailing_inverted(old(self)@.content),
            final(self)@ == (SequenceModel {
                content: old(self)@.content.take(trailing_start(old(self)@.content)),
                ..old(self)@
            }),
    {
        let ghost whole = self@.content;
        let mut inverted_identifiers: Vec<Ident> = Vec::new();
        assert(idents_model(inverted_identifiers@) =~= Seq::<IdentModel>::empty());
        assert(Seq::<IdentModel>::empty() + trailing_inverted(whole) =~= trailing_inverted(whole));
        assert(whole.take(whole.len() as int) =~= whole);
        loop
            invariant
                self.span == old(self).span,
                self.use_parens == old(self).use_parens,
                whole == old(self)@.content,
                self@.content.len() <= whole.len(),
                self@.content == whole.take(self@.content.len() as int),
                trailing_start(whole) == trailing_start(self@.content),
                trailing_inverted(whole) == idents_model(inverted_identifiers@)
                    + trailing_inverted(self@.content),
            ensures
                idents_model(inverted_identifiers@) == trailing_inverted(whole),
                self@ == (SequenceModel {
                    content: whole.take(trailing_start(whole)),
                    ..old(self)@
                }),
            decreases self.content.len(),
        {
            let n: usize = self.content.len();
            let ghost here = self@.content;
            let ghost found = idents_model(inverted_identifiers@);
            if n == 0 {
                assert(found + Seq::<IdentModel>::empty() =~= found);
                break ;
            }
            let identifier = match &self.content[n - 1] {
                EinsteinAlternative::Tree(TokenTree::Ident(ident)) => Some(ident.clone()),
                _ => None,
            };
            match identifier {
                None => {
                    assert(!is_identifier_piece(here.last()));
                    assert(found + Seq::<IdentModel>::empty() =~= found);
                    break ;
                },
                Some(ident) => {
                    assert(is_identifier_piece(here.last()));
                    inverted_identifiers.push(ident);
                    self.content.pop();
                    proof {
                        assert(self@.content =~= here.drop_last());
                        assert(self@.content =~= whole.take(self@.content.len() as int));
                        assert(idents_model(inverted_identifiers@) =~= found.push(ident@));
                        assert(found + (seq![ident@] + trailing_inverted(here.drop_last()))
                            =~= idents_model(inverted_identifiers@) + trailing_inverted(
                            self@.content,
                        ));
                    }
                },
            }
        }
        inverted_identifiers
    }
}

/// A declared index with its uses so far.
#[derive(Debug)]
pub struct IndexEntry {
    pub index: Ident,
    pub uses: Vec<EinsteinPosition>,
    /// Whether the scope that declared the index is still being read.
    pub open: bool,
}

/// What a declared index with its uses is.
pub ghost struct IndexEntryModel {
    pub index: IdentModel,
    pub uses: Seq<UseModel>,
    pub open: bool,
}

impl View for IndexEntry {
    type V = IndexEntryModel;

    open spec fn view(&self) -> IndexEntryModel {
        IndexEntryModel { index: self.index@, uses: uses_model(self.uses@), open: self.open }
    }
}

/// The indexes of an expression, in the order in which they were declared,
/// each with the array positions it is used at, in the order in which the
/// uses were met.
///
/// An index is open while its scope is read. Only an open index can be
/// used, and a name can be declared as long as no open index has it. A
/// table that is built by declaring, noting and closing is sound: an index
/// that is followed by another of its name is closed, so that no two open
/// indexes share a name, and every use stands under the index that it names.
#[derive(Debug)]
pub struct IndexUse {
    entries: Vec<IndexEntry>,
}

impl View for IndexUse {
    type V = Seq<IndexEntryModel>;

    closed spec fn view(&self) -> Seq<IndexEntryModel> {
        Seq::new(self.entries@.len(), |i: int| self.entries@[i]@)
    }
}

/// The place in `table`, from `from` on, of the open index named `name`.
pub open spec fn index_place(table: Seq<IndexEntryModel>, name: Seq<char>, from: int) -> Option<int>
    decreases table.len() - from,
{
    if !(0 <= from < table.len()) {
        None
    } else if table[from].index.name == name && table[from].open {
        Some(from)
    } else {
        index_place(table, name, from + 1)
    }
}

/// How many of the first `upto` indexes of `table` are named `name`.
pub open spec fn count_named(table: Seq<IndexEntryModel>, name: Seq<char>, upto: int) -> nat
    decreases upto,
{
    if upto <= 0 {
        0
    } else {
        count_named(table, name, upto - 1) + if upto - 1 < table.len() && table[upto
            - 1].index.name == name {
            1nat
        } else {
            0nat
        }
    }
}

/// The table after the scope has closed that was opened when the table held
/// `base` indexes: the indexes from there on are closed.
pub open spec fn closed_from(table: Seq<IndexEntryModel>, base: int) -> Seq<IndexEntryModel> {
    Seq::new(
        table.len(),
        |i: int|
            if i >= base {
                IndexEntryModel { open: false, ..table[i] }
            } else {
                table[i]
            },
    )
}

/// The place in `table`, from `from` on, of the first index without a use.
pub open spec fn unused_place(table: Seq<IndexEntryModel>, from: int) -> Option<int>
    decreases table.len() - from,
{
    if !(0 <= from < table.len()) {
        None
    } else if table[from].uses.len() == 0 {
        Some(from)
    } else {
        unused_place(table, from + 1)
    }
}

/// Whether every index of `table` is used at least once.
pub open spec fn every_index_used(table: Seq<IndexEntryModel>) -> bool {
    forall|i: int| 0 <= i < table.len() ==> (#[trigger] table[i]).uses.len() > 0
}

/// The table after the index `index` was declared; `None` where an open
/// index has that name.
pub open spec fn declared(table: Seq<IndexEntryModel>, index: IdentModel) -> Option<
    Seq<IndexEntryModel>,
> {
    match index_place(table, index.name, 0) {
        Some(_) => None,
        None => Some(table.push(IndexEntryModel { index, uses: Seq::empty(), open: true })),
    }
}

/// The table after the index `index` was used at position `position` of the
/// array `tensor`; `None` where no open index has that name.
pub open spec fn noted(
    table: Seq<IndexEntryModel>,
    index: IdentModel,
    tensor: IdentModel,
    position: int,
) -> Option<Seq<IndexEntryModel>> {
    match index_place(table, index.name, 0) {
        Some(k) => Some(
            table.update(
                k,
                IndexEntryModel {
                    uses: table[k].uses.push(
                        UseModel { tensor_name: tensor, position, index_name: index },
                    ),
                    ..table[k]
                },
            ),
        ),
        None => None,
    }
}

/// No index without a use is found exactly when every index is used.
pub proof fn lemma_unused_place(table: Seq<IndexEntryModel>, from: int)
    requires
        0 <= from <= table.len(),
    ensures
        unused_place(table, from) matches Some(k) ==> from <= k < table.len()
            && table[k].uses.len() == 0,
        unused_place(table, from) is None ==> forall|i: int|
            from <= i < table.len() ==> (#[trigger] table[i]).uses.len() > 0,
    decreases table.len() - from,
{
    if from < table.len() && table[from].uses.len() != 0 {
        lemma_unused_place(table, from + 1);
    }
}

/// Whether an index that is followed by another of its name is closed, and
/// every use stands under the index that it names.
pub open spec fn table_is_sound(table: Seq<IndexEntryModel>) -> bool {
    &&& forall|i: int, j: int|
        0 <= i < j < table.len() && (#[trigger] table[i]).index.name == (
        #[trigger] table[j]).index.name ==> !table[i].open
    &&& forall|i: int, k: int|
        0 <= i < table.len() && 0 <= k < table[i].uses.len() ==> (#[trigger] table[i].uses[k]).index_name.name
            == table[i].index.name
}

/// The search for a name finds an open index of that name, and finds none
/// only where there is none.
pub proof fn lemma_index_place(table: Seq<IndexEntryModel>, name: Seq<char>, from: int)
    requires
        0 <= from <= table.len(),
    ensures
        match index_place(table, name, from) {
            Some(k) => from <= k < table.len() && table[k].index.name == name && table[k].open,
            None => forall|j: int|
                from <= j < table.len() ==> !((#[trigger] table[j]).index.name == name
                    && table[j].open),
        },
    decreases table.len() - from,
{
    if from < table.len() && !(table[from].index.name == name && table[from].open) {
        lemma_index_place(table, name, from + 1);
    }
}

/// Declaring an index keeps the table sound: a name that an open index has
/// is refused.
pub proof fn lemma_declared_is_sound(table: Seq<IndexEntryModel>, index: IdentModel)
    requires
        table_is_sound(table),
    ensures
        declared(table, index) matches Some(next) ==> table_is_sound(next),
{
    lemma_index_place(table, index.name, 0);
    if declared(table, index) is Some {
        let next = declared(table, index)->Some_0;
        assert forall|i: int, j: int|
            0 <= i < j < next.len() && (#[trigger] next[i]).index.name == (
            #[trigger] next[j]).index.name implies !next[i].open by {
            assert(next[i] == table[i]);
            if j < table.len() {
                assert(next[j] == table[j]);
            }
        }
        assert forall|i: int, k: int|
            0 <= i < next.len() && 0 <= k < next[i].uses.len() implies (#[trigger] next[i].uses[k]).index_name.name
            == next[i].index.name by {
            assert(next[i] == table[i]);
        }
    }
}

/// Noting a use keeps the table sound: the use comes to stand under the
/// index that it names.
pub proof fn lemma_noted_is_sound(
    table: Seq<IndexEntryModel>,
    index: IdentModel,
    tensor: IdentModel,
    position: int,
)
    requires
        table_is_sound(table),
    ensures
        noted(table, index, tensor, position) matches Some(next) ==> table_is_sound(next),
{
    lemma_index_place(table, index.name, 0);
    if noted(table, index, tensor, position) is Some {
        let next = noted(table, index, tensor, position)->Some_0;
        let place = index_place(table, index.name, 0)->Some_0;
        assert forall|i: int, j: int|
            0 <= i < j < next.len() && (#[trigger] next[i]).index.name == (
            #[trigger] next[j]).index.name implies !next[i].open by {
            assert(next[i].index == table[i].index && next[i].open == table[i].open);
            assert(next[j].index == table[j].index);
        }
        assert forall|i: int, k: int|
            0 <= i < next.len() && 0 <= k < next[i].uses.len() implies (#[trigger] next[i].uses[k]).index_name.name
            == next[i].index.name by {
            if i == place {
                if k < table[i].uses.len() {
                    assert(next[i].uses[k] == table[i].uses[k]);
                }
            } else {
                assert(next[i] == table[i]);
            }
        }
    }
}

/// Closing a scope keeps the table sound, and leaves none of the indexes
/// open that were declared since the scope was opened.
pub proof fn lemma_closed_is_sound(table: Seq<IndexEntryModel>, base: int)
    requires
        table_is_sound(table),
    ensures
        table_is_sound(closed_from(table, base)),
        forall|i: int|
            base <= i < table.len() && 0 <= i ==> !(#[trigger] closed_from(table, base)[i]).open,
{
    let next = closed_from(table, base);
    assert forall|i: int, j: int|
        0 <= i < j < next.len() && (#[trigger] next[i]).index.name == (
        #[trigger] next[j]).index.name implies !next[i].open by {
        assert(next[i].index == table[i].index);
        assert(next[j].index == table[j].index);
    }
    assert forall|i: int, k: int|
        0 <= i < next.len() && 0 <= k < next[i].uses.len() implies (#[trigger] next[i].uses[k]).index_name.name
        == next[i].index.name by {
        assert(next[i].uses == table[i].uses && next[i].index == table[i].index);
    }
}

impl IndexUse {
    /// A table without indexes.
    pub fn new() -> (r: Self)
        ensures
            r@ == Seq::<IndexEntryModel>::empty(),
            table_is_sound(r@),
    {
        let r = IndexUse { entries: Vec::new() };
        assert(r@ =~= Seq::<IndexEntryModel>::empty());
        r
    }

    /// How many indexes were declared so far, open or closed.
    pub fn len(&self) -> (n: usize)
        ensures
            n == self@.len(),
    {
        self.entries.len()
    }

    /// The place of the open index named as `index` is.
    fn find(&self, index: &Ident) -> (r: Option<usize>)
        ensures
            r matches Some(k) ==> index_place(self@, index@.name, 0) == Some(k as int) && k
                < self@.len(),
            r is None ==> index_place(self@, index@.name, 0) is None,
    {
        let mut i: usize = 0;
        while i < self.entries.len()
            invariant
                i <= self.entries.len(),
                index_place(self@, index@.name, 0) == index_place(self@, index@.name, i as int),
            decreases self.entries.len() - i,
        {
            if self.entries[i].open && self.entries[i].index.same_name(index) {
                return Some(i);
            }
            i += 1;
        }
        None
    }

    /// The rank that an index named as `index` is gets when it is declared
    /// now: how many indexes of that name were declared before.
    pub fn rank_of(&self, index: &Ident) -> (rank: usize)
        ensures
            rank == count_named(self@, index@.name, self@.len() as int),
    {
        let mut rank: usize = 0;
        let mut i: usize = 0;
        while i < self.entries.len()
            invariant
                i <= self.entries.len(),
                rank <= i,
                rank == count_named(self@, index@.name, i as int),
            decreases self.entries.len() - i,
        {
            if self.entries[i].index.same_name(index) {
                rank += 1;
            }
            i += 1;
        }
        rank
    }

    /// Declares the index `index_name`, and tells whether its name was free.
    pub fn declare_new(&mut self, index_name: Ident) -> (added: bool)
        ensures
            match declared(old(self)@, index_name@) {
                Some(table) => added && final(self)@ == table,
                None => !added && final(self)@ == old(self)@,
            },
            table_is_sound(old(self)@) ==> table_is_sound(final(self)@),
    {
        proof {
            if table_is_sound(self@) {
                lemma_declared_is_sound(self@, index_name@);
            }
        }
        match self.find(&index_name) {
            Some(_) => false,
            None => {
                let entry = IndexEntry { index: index_name, uses: Vec::new(), open: true };
                assert(entry@.uses =~= Seq::<UseModel>::empty());
                self.entries.push(entry);
                assert(self@ =~= old(self)@.push(
                    IndexEntryModel { index: index_name@, uses: Seq::empty(), open: true },
                ));
                true
            },
        }
    }

    /// Notes that the index `index_name` is used at position `position` of
    /// the array `tensor_name`, and tells whether an open index has that
    /// name.
    pub fn push(&mut self, index_name: Ident, tensor_name: Ident, position: usize) -> (added: bool)
        ensures
            match noted(old(self)@, index_name@, tensor_name@, position as int) {
                Some(table) => added && final(self)@ == table,
                None => !added && final(self)@ == old(self)@,
            },
            table_is_sound(old(self)@) ==> table_is_sound(final(self)@),
    {
        proof {
            if table_is_sound(self@) {
                lemma_noted_is_sound(self@, index_name@, tensor_name@, position as int);
            }
        }
        match self.find(&index_name) {
            None => false,
            Some(k) => {
                let ghost before = self@;
                let mut entry = self.entries.remove(k);
                let ghost uses_before = entry@.uses;
                entry.uses.push(EinsteinPosition { tensor_name, position, index_name });
                assert(entry@.uses =~= uses_before.push(
                    UseModel {
                        tensor_name: tensor_name@,
                        position: position as int,
                        index_name: index_name@,
                    },
                ));
                self.entries.insert(k, entry);
                assert(self@ =~= noted(
                    before,
                    index_name@,
                    tensor_name@,
                    position as int,
                )->Some_0);
                true
            },
        }
    }

    /// Closes the scope that was opened when the table held `base` indexes:
    /// the indexes that were declared since are closed, and their names are
    /// free again.
    pub fn close_from(&mut self, base: usize)
        ensures
            final(self)@ == closed_from(old(self)@, base as int),
            table_is_sound(old(self)@) ==> table_is_sound(final(self)@),
    {
        proof {
            if table_is_sound(self@) {
                lemma_closed_is_sound(self@, base as int);
            }
        }
        let ghost before = self@;
        let mut i: usize = base;
        while i < self.entries.len()
            invariant
                base <= i || self.entries.len() <= i,
                self@.len() == before.len(),
                forall|k: int|
                    0 <= k < before.len() ==> #[trigger] self@[k] == if base <= k < i {
                        IndexEntryModel { open: false, ..before[k] }
                    } else {
                        before[k]
                    },
            decreases self.entries.len() - i,
        {
            let ghost here = self@;
            let mut entry = self.entries.remove(i);
            assert(entry@ == here[i as int]);
            entry.open = false;
            assert(entry@ == (IndexEntryModel { open: false, ..here[i as int] }));
            self.entries.insert(i, entry);
            assert(self@ =~= here.update(
                i as int,
                IndexEntryModel { open: false, ..here[i as int] },
            ));
            i += 1;
        }
        assert(self@ =~= closed_from(before, base as int));
    }

    /// The first index, in the order of declaration, that is never used.
    pub fn first_unused(&self) -> (r: Option<Ident>)
        ensures
            match unused_place(self@, 0) {
                Some(k) => r matches Some(index) && index@ == self@[k].index && 0 <= k
                    < self@.len(),
                None => r is None && every_index_used(self@),
            },
    {
        proof {
            lemma_unused_place(self@, 0);
        }
        let mut i: usize = 0;
        while i < self.entries.len()
            invariant
                i <= self.entries.len(),
                unused_place(self@, 0) == unused_place(self@, i as int),
            decreases self.entries.len() - i,
        {
            if self.entries[i].uses.len() == 0 {
                return Some(self.entries[i].index.clone());
            }
            i += 1;
        }
        None
    }

    /// The indexes with their uses, in the order of declaration.
    pub fn entries(&self) -> (r: &Vec<IndexEntry>)
        ensures
            r@.len() == self@.len(),
            forall|i: int| 0 <= i < r@.len() ==> (#[trigger] r@[i])@ == self@[i],
    {
        &self.entries
    }

    /// Hands out the name of each index with its uses, in the order of
    /// declaration.
    pub fn into_iter(self) -> (r: Vec<(String, Vec<EinsteinPosition>)>)
        requires
            every_index_used(self@),
        ensures
            r@.len() == self@.len(),
            forall|i: int|
                0 <= i < r@.len() ==> (#[trigger] r@[i]).0@ == self@[i].index.name && uses_model(
                    r@[i].1@,
                ) == self@[i].uses,
    {
        let ghost table = self@;
        let mut entries = self.entries;
        let mut out: Vec<(String, Vec<EinsteinPosition>)> = Vec::new();
        while entries.len() > 0
            invariant
                out@.len() + entries@.len() == table.len(),
                forall|i: int|
                    0 <= i < out@.len() ==> (#[trigger] out@[i]).0@ == table[i].index.name
                        && uses_model(out@[i].1@) == table[i].uses,
                forall|i: int|
                    0 <= i < entries@.len() ==> (#[trigger] entries@[i])@ == table[out@.len() + i],
            decreases entries.len(),
        {
            let entry = entries.remove(0);
            out.push((entry.index.name, entry.uses));
        }
        out
    }
}

} // verus!

//! What holds of every table of index uses that the inline parser builds:
//! no two open indexes share a name, every use stands under the index that
//! it names, a scope that has closed leaves no index open, and the table
//! notes the uses in the order in which the tree holds them.
use crate::parsing::{
    declare_all, note_all, ranks_of, parse_for_spec, parse_group_spec, parse_punct_spec,
    parse_sequence_spec, parse_spec,
};
use crate::token::{IdentModel, Punct, Span, TokenModel};
use crate::types::{
    closed_from, count_named, declared, index_place, lemma_closed_is_sound, lemma_declared_is_sound,
    lemma_index_place, lemma_noted_is_sound, noted, table_is_sound, trailing_start,
    AlternativeModel, IndexEntryModel, UseModel,
};
use vstd::prelude::*;

verus! {

/// Declaring indexes one after the other keeps the table sound.
pub proof fn lemma_declare_all_is_sound(table: Seq<IndexEntryModel>, indexes: Seq<IdentModel>, from: int)
    requires
        table_is_sound(table),
    ensures
        declare_all(table, indexes, from) matches Ok(next) ==> table_is_sound(next),
    decreases indexes.len() - from,
{
    if 0 <= from < indexes.len() {
        lemma_declared_is_sound(table, indexes[from]);
        match declared(table, indexes[from]) {
            Some(next) => lemma_declare_all_is_sound(next, indexes, from + 1),
            None => {},
        }
    }
}

/// Noting uses one after the other keeps the table sound.
pub proof fn lemma_note_all_is_sound(
    table: Seq<IndexEntryModel>,
    indexes: Seq<IdentModel>,
    tensor: IdentModel,
    from: int,
)
    requires
        table_is_sound(table),
    ensures
        note_all(table, indexes, tensor, from) matches Ok(next) ==> table_is_sound(next),
    decreases indexes.len() - from,
{
    if 0 <= from < indexes.len() {
        lemma_noted_is_sound(table, indexes[from], tensor, from);
        match noted(table, indexes[from], tensor, from) {
            Some(next) => lemma_note_all_is_sound(next, indexes, tensor, from + 1),
            None => {},
        }
    }
}

/// Reading a group keeps the table sound.
pub proof fn lemma_group_is_sound(
    group: TokenModel,
    content: Seq<AlternativeModel>,
    table: Seq<IndexEntryModel>,
)
    requires
        table_is_sound(table),
    ensures
        parse_group_spec(group, content, table) matches Ok(p) ==> table_is_sound(p.table),
    decreases group, 0nat, 0nat,
{
    match group {
        TokenModel::Group { delimiter, stream, span } => {
            match delimiter {
                crate::token::Delimiter::Brace => {},
                crate::token::Delimiter::Bracket => {
                    if content.len() > 0 && crate::types::is_identifier_piece(content.last()) {
                        lemma_note_all_is_sound(
                            table,
                            crate::parsing::listed_indexes(stream),
                            content.last()->Tree_0->Ident_0,
                            0,
                        );
                    }
                },
                _ => {
                    lemma_sequence_is_sound(stream, 0, span, Seq::empty(), table);
                },
            }
        },
        _ => {},
    }
}

/// Reading what follows a punctuation character keeps the table sound.
pub proof fn lemma_punct_is_sound(
    punct: Punct,
    s: Seq<TokenModel>,
    pos: int,
    content: Seq<AlternativeModel>,
    table: Seq<IndexEntryModel>,
)
    requires
        table_is_sound(table),
    ensures
        parse_punct_spec(punct, s, pos, content, table) matches Ok(a) ==> table_is_sound(
            a.progress.table,
        ),
    decreases s, s.len() - pos, 2nat,
{
    if punct.ch == '$' {
        let direct = crate::types::trailing_inverted(content).reverse();
        lemma_declare_all_is_sound(table, direct, 0);
        match declare_all(table, direct, 0) {
            Ok(opened) => {
                lemma_sequence_is_sound(s, pos, punct.span, Seq::empty(), opened);
                match parse_sequence_spec(s, pos, punct.span, Seq::empty(), opened) {
                    Ok(body) => lemma_closed_is_sound(body.table, table.len() as int),
                    Err(_) => {},
                }
            },
            Err(_) => {},
        }
    }
}

/// Reading a scope that opens with `for` keeps the table sound.
pub proof fn lemma_for_is_sound(
    s: Seq<TokenModel>,
    pos: int,
    scope: Span,
    content: Seq<AlternativeModel>,
    table: Seq<IndexEntryModel>,
)
    requires
        table_is_sound(table),
    ensures
        parse_for_spec(s, pos, scope, content, table) matches Ok(p) ==> table_is_sound(p.table),
    decreases s, s.len() - pos, 0nat,
{
    match crate::model::header::parse_index_declaration(s, pos, scope) {
        Ok(header) => {
            lemma_declare_all_is_sound(table, header.value, 0);
            match declare_all(table, header.value, 0) {
                Ok(opened) => {
                    if crate::model::lambda::arrow_at(s, header.next) && 0 <= pos < header.next + 2
                        <= s.len() {
                        lemma_sequence_is_sound(
                            s,
                            header.next + 2,
                            s[pos].span(),
                            Seq::empty(),
                            opened,
                        );
                        match parse_sequence_spec(
                            s,
                            header.next + 2,
                            s[pos].span(),
                            Seq::empty(),
                            opened,
                        ) {
                            Ok(body) => lemma_closed_is_sound(body.table, table.len() as int),
                            Err(_) => {},
                        }
                    }
                },
                Err(_) => {},
            }
        },
        Err(_) => {},
    }
}

/// Reading a sequence of tokens keeps the table sound.
pub proof fn lemma_sequence_is_sound(
    s: Seq<TokenModel>,
    pos: int,
    scope: Span,
    content: Seq<AlternativeModel>,
    table: Seq<IndexEntryModel>,
)
    requires
        table_is_sound(table),
    ensures
        parse_sequence_spec(s, pos, scope, content, table) matches Ok(p) ==> table_is_sound(
            p.table,
        ),
    decreases s, s.len() - pos, 1nat,
{
    if 0 <= pos < s.len() {
        match s[pos] {
            TokenModel::Punct(punct) => {
                lemma_punct_is_sound(punct, s, pos + 1, content, table);
                match parse_punct_spec(punct, s, pos + 1, content, table) {
                    Ok(a) => {
                        if pos < a.next <= s.len() {
                            lemma_sequence_is_sound(
                                s,
                                a.next,
                                scope,
                                a.progress.content,
                                a.progress.table,
                            );
                        }
                    },
                    Err(_) => {},
                }
            },
            TokenModel::Group { .. } => {
                lemma_group_is_sound(s[pos], content, table);
                match parse_group_spec(s[pos], content, table) {
                    Ok(p) => lemma_sequence_is_sound(s, pos + 1, scope, p.content, p.table),
                    Err(_) => {},
                }
            },
            _ => {
                if s[pos].is_word("for"@) {
                    lemma_for_is_sound(s, pos, scope, content, table);
                } else {
                    lemma_sequence_is_sound(
                        s,
                        pos + 1,
                        scope,
                        content.push(AlternativeModel::Tree(s[pos])),
                        table,
                    );
                }
            },
        }
    }
}

/// In the table of an expression that is read without fault, no two indexes
/// share a name, every index is used, and every use stands under the index
/// that it names: the generated code takes each extent once, under a name
/// of its own.
pub proof fn lemma_table_of_expression_is_sound(s: Seq<TokenModel>)
    ensures
        parse_spec(s) matches Ok(p) ==> table_is_sound(p.table) && crate::types::every_index_used(
            p.table,
        ),
{
    lemma_sequence_is_sound(s, 0, Span::CallSite, Seq::empty(), Seq::empty());
    match parse_sequence_spec(s, 0, Span::CallSite, Seq::empty(), Seq::empty()) {
        Ok(p) => {
            crate::types::lemma_unused_place(p.table, 0);
        },
        Err(_) => {},
    }
}

/// The uses that the access to `tensor_name` at the indexes `indexes` makes
/// of the index named `name`, from the position `from` on.
pub open spec fn access_uses(
    tensor_name: IdentModel,
    indexes: Seq<IdentModel>,
    name: Seq<char>,
    from: int,
) -> Seq<UseModel>
    decreases indexes.len() - from,
{
    if !(0 <= from < indexes.len()) {
        Seq::empty()
    } else {
        (if indexes[from].name == name {
            seq![UseModel { tensor_name, position: from, index_name: indexes[from] }]
        } else {
            Seq::empty()
        }) + access_uses(tensor_name, indexes, name, from + 1)
    }
}

/// The uses that a piece of a tree makes of the index named `name`, in the
/// order in which the piece is written.
pub open spec fn piece_uses(x: AlternativeModel, name: Seq<char>) -> Seq<UseModel>
    decreases x,
{
    match x {
        AlternativeModel::Func(f) => content_uses(f.sequence.content, name),
        AlternativeModel::Tree(_) => Seq::empty(),
        AlternativeModel::Sequence(s) => content_uses(s.content, name),
        AlternativeModel::TensorAccess { tensor_name, indexes, .. } => access_uses(
            tensor_name,
            indexes,
            name,
            0,
        ),
    }
}

/// The uses that the pieces of a tree make of the index named `name`, in
/// the order in which the pieces are written.
pub open spec fn content_uses(s: Seq<AlternativeModel>, name: Seq<char>) -> Seq<UseModel>
    decreases s,
{
    if s.len() == 0 {
        Seq::empty()
    } else {
        content_uses(s.drop_last(), name) + piece_uses(s.last(), name)
    }
}

/// The uses that the table holds for the indexes named `name`: those of
/// the first index of that name, then those of the second, and so on.
pub open spec fn table_uses(table: Seq<IndexEntryModel>, name: Seq<char>) -> Seq<UseModel>
    decreases table.len(),
{
    if table.len() == 0 {
        Seq::empty()
    } else {
        table_uses(table.drop_last(), name) + if table.last().index.name == name {
            table.last().uses
        } else {
            Seq::empty()
        }
    }
}

/// Whether the table and the tree have gained the same uses of the index
/// named `name`.
pub open spec fn gained_alike(
    table: Seq<IndexEntryModel>,
    content: Seq<AlternativeModel>,
    later_table: Seq<IndexEntryModel>,
    later_content: Seq<AlternativeModel>,
    name: Seq<char>,
) -> bool {
    exists|gain: Seq<UseModel>|
        #![trigger table_uses(table, name) + gain]
        table_uses(later_table, name) == table_uses(table, name) + gain && content_uses(
            later_content,
            name,
        ) == content_uses(content, name) + gain
}

/// Two tables that hold the same names with the same uses hold the same
/// uses of a name.
pub proof fn lemma_table_uses_alike(a: Seq<IndexEntryModel>, b: Seq<IndexEntryModel>, name: Seq<char>)
    requires
        a.len() == b.len(),
        forall|i: int|
            0 <= i < a.len() ==> (#[trigger] a[i]).index.name == (#[trigger] b[i]).index.name
                && a[i].uses == b[i].uses,
    ensures
        table_uses(a, name) == table_uses(b, name),
    decreases a.len(),
{
    if a.len() > 0 {
        assert(a.last().index.name == b.last().index.name && a.last().uses == b.last().uses) by {
            assert(a[a.len() - 1].index.name == b[a.len() - 1].index.name);
        }
        assert forall|i: int| 0 <= i < a.drop_last().len() implies (#[trigger] a.drop_last()[i]).index.name
            == (#[trigger] b.drop_last()[i]).index.name && a.drop_last()[i].uses
            == b.drop_last()[i].uses by {
            assert(a[i].index.name == b[i].index.name);
        }
        lemma_table_uses_alike(a.drop_last(), b.drop_last(), name);
    }
}

/// Declaring an index changes the uses of no name.
pub proof fn lemma_declared_keeps_uses(table: Seq<IndexEntryModel>, index: IdentModel, name: Seq<char>)
    requires
        declared(table, index) is Some,
    ensures
        table_uses(declared(table, index)->Some_0, name) == table_uses(table, name),
{
    let next = declared(table, index)->Some_0;
    assert(next.drop_last() =~= table);
    assert(table_uses(table, name) + Seq::<UseModel>::empty() =~= table_uses(table, name));
}

/// Declaring indexes changes the uses of no name.
pub proof fn lemma_declare_all_keeps_uses(
    table: Seq<IndexEntryModel>,
    indexes: Seq<IdentModel>,
    from: int,
    name: Seq<char>,
)
    requires
        declare_all(table, indexes, from) is Ok,
    ensures
        table_uses(declare_all(table, indexes, from)->Ok_0, name) == table_uses(table, name),
    decreases indexes.len() - from,
{
    if 0 <= from < indexes.len() {
        lemma_declared_keeps_uses(table, indexes[from], name);
        lemma_declare_all_keeps_uses(declared(table, indexes[from])->Some_0, indexes, from + 1, name);
    }
}

/// Closing a scope changes the uses of no name.
pub proof fn lemma_closed_keeps_uses(table: Seq<IndexEntryModel>, base: int, name: Seq<char>)
    ensures
        table_uses(closed_from(table, base), name) == table_uses(table, name),
{
    lemma_table_uses_alike(closed_from(table, base), table, name);
}

/// A use that is added to the last index of its name comes to stand at the
/// end of the uses of that name, and changes the uses of no other name.
pub proof fn lemma_update_adds_use(table: Seq<IndexEntryModel>, k: int, added: UseModel, name: Seq<char>)
    requires
        0 <= k < table.len(),
        forall|j: int| k < j < table.len() ==> (#[trigger] table[j]).index.name != table[k].index.name,
    ensures
        table_uses(
            table.update(k, IndexEntryModel { uses: table[k].uses.push(added), ..table[k] }),
            name,
        ) == table_uses(table, name) + if table[k].index.name == name {
            seq![added]
        } else {
            Seq::empty()
        },
    decreases table.len(),
{
    let entry = IndexEntryModel { uses: table[k].uses.push(added), ..table[k] };
    let next = table.update(k, entry);
    let last = table.len() - 1;
    let gain = if table[k].index.name == name {
        seq![added]
    } else {
        Seq::<UseModel>::empty()
    };
    if k == last {
        assert(next.drop_last() =~= table.drop_last());
        if table[k].index.name == name {
            assert(table_uses(table.drop_last(), name) + table[k].uses.push(added) =~= (
            table_uses(table.drop_last(), name) + table[k].uses) + seq![added]);
        } else {
            assert(table_uses(table, name) + gain =~= table_uses(table, name));
        }
    } else {
        let shorter = table.drop_last();
        assert(next.drop_last() =~= shorter.update(k, entry));
        assert(shorter[k] == table[k]);
        assert forall|j: int| k < j < shorter.len() implies (#[trigger] shorter[j]).index.name
            != shorter[k].index.name by {
            assert(shorter[j] == table[j]);
        }
        lemma_update_adds_use(shorter, k, added, name);
        assert(next.last() == table.last());
        assert(table[last].index.name != table[k].index.name);
        let tail = if table.last().index.name == name {
            table.last().uses
        } else {
            Seq::<UseModel>::empty()
        };
        if table[k].index.name == name {
            assert(tail =~= Seq::<UseModel>::empty());
            assert((table_uses(shorter, name) + gain) + tail =~= (table_uses(shorter, name) + tail)
                + gain);
        } else {
            assert((table_uses(shorter, name) + gain) + tail =~= (table_uses(shorter, name) + tail)
                + gain);
        }
    }
}

/// Noting a use adds it at the end of the uses of the name of its index,
/// and changes the uses of no other name.
pub proof fn lemma_noted_adds_use(
    table: Seq<IndexEntryModel>,
    index: IdentModel,
    tensor: IdentModel,
    position: int,
    name: Seq<char>,
)
    requires
        table_is_sound(table),
        noted(table, index, tensor, position) is Some,
    ensures
        table_uses(noted(table, index, tensor, position)->Some_0, name) == table_uses(table, name)
            + (if index.name == name {
            seq![UseModel { tensor_name: tensor, position, index_name: index }]
        } else {
            Seq::empty()
        }),
{
    lemma_index_place(table, index.name, 0);
    let place = index_place(table, index.name, 0)->Some_0;
    lemma_update_adds_use(
        table,
        place,
        UseModel { tensor_name: tensor, position, index_name: index },
        name,
    );
}

/// Noting the uses of an access adds them to the table as the access makes
/// them.
pub proof fn lemma_note_all_adds_uses(
    table: Seq<IndexEntryModel>,
    indexes: Seq<IdentModel>,
    tensor: IdentModel,
    from: int,
    name: Seq<char>,
)
    requires
        table_is_sound(table),
        note_all(table, indexes, tensor, from) is Ok,
    ensures
        table_uses(note_all(table, indexes, tensor, from)->Ok_0, name) == table_uses(table, name)
            + access_uses(tensor, indexes, name, from),
    decreases indexes.len() - from,
{
    if 0 <= from < indexes.len() {
        lemma_noted_adds_use(table, indexes[from], tensor, from, name);
        lemma_noted_is_sound(table, indexes[from], tensor, from);
        let next = noted(table, indexes[from], tensor, from)->Some_0;
        lemma_note_all_adds_uses(next, indexes, tensor, from + 1, name);
        let one = if indexes[from].name == name {
            seq![UseModel { tensor_name: tensor, position: from, index_name: indexes[from] }]
        } else {
            Seq::empty()
        };
        assert((table_uses(table, name) + one) + access_uses(tensor, indexes, name, from + 1)
            =~= table_uses(table, name) + access_uses(tensor, indexes, name, from));
    } else {
        assert(table_uses(table, name) + Seq::<UseModel>::empty() =~= table_uses(table, name));
    }
}

/// The identifiers that end a sequence of pieces use no index.
pub proof fn lemma_trailing_identifiers_use_nothing(content: Seq<AlternativeModel>, name: Seq<char>)
    ensures
        content_uses(content.take(trailing_start(content)), name) == content_uses(content, name),
    decreases content.len(),
{
    if content.len() > 0 && crate::types::is_identifier_piece(content.last()) {
        lemma_trailing_identifiers_use_nothing(content.drop_last(), name);
        assert(content.drop_last().take(trailing_start(content.drop_last())) =~= content.take(
            trailing_start(content),
        )) by {
            crate::parsing::laws::lemma_trailing_start_within(content.drop_last());
        }
        assert(content.last() is Tree);
        assert(piece_uses(content.last(), name) =~= Seq::<UseModel>::empty());
        assert(content_uses(content, name) == content_uses(content.drop_last(), name)
            + piece_uses(content.last(), name));
        assert(content_uses(content.drop_last(), name) + Seq::<UseModel>::empty()
            =~= content_uses(content.drop_last(), name));
    } else {
        assert(content.take(content.len() as int) =~= content);
    }
}

/// Where the identifiers that end a sequence start lies within it.
pub proof fn lemma_trailing_start_within(content: Seq<AlternativeModel>)
    ensures
        0 <= trailing_start(content) <= content.len(),
    decreases content.len(),
{
    if content.len() > 0 && crate::types::is_identifier_piece(content.last()) {
        lemma_trailing_start_within(content.drop_last());
    }
}

/// The uses of pieces followed by one more piece.
pub proof fn lemma_content_uses_push(content: Seq<AlternativeModel>, piece: AlternativeModel, name: Seq<char>)
    ensures
        content_uses(content.push(piece), name) == content_uses(content, name) + piece_uses(
            piece,
            name,
        ),
{
    assert(content.push(piece).drop_last() =~= content);
}

/// Reading a group adds to the table the uses that it adds to the tree.
pub proof fn lemma_group_gains_alike(
    group: TokenModel,
    content: Seq<AlternativeModel>,
    table: Seq<IndexEntryModel>,
    name: Seq<char>,
)
    requires
        table_is_sound(table),
        parse_group_spec(group, content, table) is Ok,
    ensures
        gained_alike(
            table,
            content,
            parse_group_spec(group, content, table)->Ok_0.table,
            parse_group_spec(group, content, table)->Ok_0.content,
            name,
        ),
    decreases group, 0nat, 0nat,
{
    let p = parse_group_spec(group, content, table)->Ok_0;
    match group {
        TokenModel::Group { delimiter, stream, span } => {
            match delimiter {
                crate::token::Delimiter::Brace => {},
                crate::token::Delimiter::Bracket => {
                    let tensor_name = content.last()->Tree_0->Ident_0;
                    let indexes = crate::parsing::listed_indexes(stream);
                    lemma_note_all_adds_uses(table, indexes, tensor_name, 0, name);
                    let gain = access_uses(tensor_name, indexes, name, 0);
                    lemma_content_uses_push(
                        content.drop_last(),
                        AlternativeModel::TensorAccess { tensor_name, span, indexes },
                        name,
                    );
                    assert(content.last() is Tree);
                    assert(piece_uses(content.last(), name) =~= Seq::<UseModel>::empty());
                    assert(content_uses(content, name) == content_uses(content.drop_last(), name)
                        + piece_uses(content.last(), name));
                    assert(content_uses(content.drop_last(), name) + Seq::<UseModel>::empty()
                        =~= content_uses(content.drop_last(), name));
                    assert(table_uses(p.table, name) == table_uses(table, name) + gain);
                    assert(content_uses(p.content, name) == content_uses(content, name) + gain);
                },
                _ => {
                    lemma_sequence_gains_alike(stream, 0, span, Seq::empty(), table, name);
                    let inner = parse_sequence_spec(stream, 0, span, Seq::empty(), table)->Ok_0;
                    let gain = choose|gain: Seq<UseModel>|
                        #![trigger table_uses(table, name) + gain]
                        table_uses(inner.table, name) == table_uses(table, name) + gain
                            && content_uses(inner.content, name) == content_uses(
                            Seq::empty(),
                            name,
                        ) + gain;
                    lemma_content_uses_push(content, p.content.last(), name);
                    assert(Seq::<UseModel>::empty() + gain =~= gain);
                    assert(table_uses(p.table, name) == table_uses(table, name) + gain);
                    assert(content_uses(p.content, name) == content_uses(content, name) + gain);
                },
            }
        },
        _ => {
            let gain = Seq::<UseModel>::empty();
            assert(table_uses(table, name) + gain =~= table_uses(table, name));
            assert(content_uses(content, name) + gain =~= content_uses(content, name));
            assert(table_uses(p.table, name) == table_uses(table, name) + gain);
        },
    }
}

/// Reading what follows a punctuation character adds to the table the uses
/// that it adds to the tree.
pub proof fn lemma_punct_gains_alike(
    punct: Punct,
    s: Seq<TokenModel>,
    pos: int,
    content: Seq<AlternativeModel>,
    table: Seq<IndexEntryModel>,
    name: Seq<char>,
)
    requires
        table_is_sound(table),
        parse_punct_spec(punct, s, pos, content, table) is Ok,
    ensures
        gained_alike(
            table,
            content,
            parse_punct_spec(punct, s, pos, content, table)->Ok_0.progress.table,
            parse_punct_spec(punct, s, pos, content, table)->Ok_0.progress.content,
            name,
        ),
    decreases s, s.len() - pos, 2nat,
{
    let p = parse_punct_spec(punct, s, pos, content, table)->Ok_0.progress;
    if punct.ch == '$' {
        let direct = crate::types::trailing_inverted(content).reverse();
        lemma_declare_all_keeps_uses(table, direct, 0, name);
        lemma_declare_all_is_sound(table, direct, 0);
        let opened = declare_all(table, direct, 0)->Ok_0;
        lemma_sequence_gains_alike(s, pos, punct.span, Seq::empty(), opened, name);
        let body = parse_sequence_spec(s, pos, punct.span, Seq::empty(), opened)->Ok_0;
        lemma_closed_keeps_uses(body.table, table.len() as int, name);
        let gain = choose|gain: Seq<UseModel>|
            #![trigger table_uses(opened, name) + gain]
            table_uses(body.table, name) == table_uses(opened, name) + gain && content_uses(
                body.content,
                name,
            ) == content_uses(Seq::empty(), name) + gain;
        lemma_trailing_identifiers_use_nothing(content, name);
        lemma_content_uses_push(content.take(trailing_start(content)), p.content.last(), name);
        assert(Seq::<UseModel>::empty() + gain =~= gain);
        assert(table_uses(p.table, name) == table_uses(table, name) + gain);
        assert(content_uses(p.content, name) == content_uses(content, name) + gain);
    } else {
        let gain = Seq::<UseModel>::empty();
        lemma_content_uses_push(content, p.content.last(), name);
        assert(table_uses(table, name) + gain =~= table_uses(table, name));
        assert(table_uses(p.table, name) == table_uses(table, name) + gain);
        assert(content_uses(p.content, name) == content_uses(content, name) + gain);
    }
}

/// Reading a scope that opens with `for` adds to the table the uses that it
/// adds to the tree.
pub proof fn lemma_for_gains_alike(
    s: Seq<TokenModel>,
    pos: int,
    scope: Span,
    content: Seq<AlternativeModel>,
    table: Seq<IndexEntryModel>,
    name: Seq<char>,
)
    requires
        table_is_sound(table),
        parse_for_spec(s, pos, scope, content, table) is Ok,
    ensures
        gained_alike(
            table,
            content,
            parse_for_spec(s, pos, scope, content, table)->Ok_0.table,
            parse_for_spec(s, pos, scope, content, table)->Ok_0.content,
            name,
        ),
    decreases s, s.len() - pos, 0nat,
{
    let p = parse_for_spec(s, pos, scope, content, table)->Ok_0;
    let header = crate::model::header::parse_index_declaration(s, pos, scope)->Ok_0;
    lemma_declare_all_keeps_uses(table, header.value, 0, name);
    lemma_declare_all_is_sound(table, header.value, 0);
    let opened = declare_all(table, header.value, 0)->Ok_0;
    lemma_sequence_gains_alike(s, header.next + 2, s[pos].span(), Seq::empty(), opened, name);
    let body = parse_sequence_spec(s, header.next + 2, s[pos].span(), Seq::empty(), opened)->Ok_0;
    lemma_closed_keeps_uses(body.table, table.len() as int, name);
    let gain = choose|gain: Seq<UseModel>|
        #![trigger table_uses(opened, name) + gain]
        table_uses(body.table, name) == table_uses(opened, name) + gain && content_uses(
            body.content,
            name,
        ) == content_uses(Seq::empty(), name) + gain;
    lemma_content_uses_push(content, p.content.last(), name);
    assert(Seq::<UseModel>::empty() + gain =~= gain);
    assert(table_uses(p.table, name) == table_uses(table, name) + gain);
    assert(content_uses(p.content, name) == content_uses(content, name) + gain);
}

/// Two gains, one after the other, are one gain.
pub proof fn lemma_gains_add_up(
    table: Seq<IndexEntryModel>,
    content: Seq<AlternativeModel>,
    middle_table: Seq<IndexEntryModel>,
    middle_content: Seq<AlternativeModel>,
    later_table: Seq<IndexEntryModel>,
    later_content: Seq<AlternativeModel>,
    name: Seq<char>,
)
    requires
        gained_alike(table, content, middle_table, middle_content, name),
        gained_alike(middle_table, middle_content, later_table, later_content, name),
    ensures
        gained_alike(table, content, later_table, later_content, name),
{
    let first = choose|gain: Seq<UseModel>|
        #![trigger table_uses(table, name) + gain]
        table_uses(middle_table, name) == table_uses(table, name) + gain && content_uses(
            middle_content,
            name,
        ) == content_uses(content, name) + gain;
    let second = choose|gain: Seq<UseModel>|
        #![trigger table_uses(middle_table, name) + gain]
        table_uses(later_table, name) == table_uses(middle_table, name) + gain && content_uses(
            later_content,
            name,
        ) == content_uses(middle_content, name) + gain;
    let gain = first + second;
    assert(table_uses(later_table, name) =~= table_uses(table, name) + gain);
    assert(content_uses(later_content, name) =~= content_uses(content, name) + gain);
}

/// Reading a sequence of tokens adds to the table the uses that it adds to
/// the tree.
pub proof fn lemma_sequence_gains_alike(
    s: Seq<TokenModel>,
    pos: int,
    scope: Span,
    content: Seq<AlternativeModel>,
    table: Seq<IndexEntryModel>,
    name: Seq<char>,
)
    requires
        table_is_sound(table),
        parse_sequence_spec(s, pos, scope, content, table) is Ok,
    ensures
        gained_alike(
            table,
            content,
            parse_sequence_spec(s, pos, scope, content, table)->Ok_0.table,
            parse_sequence_spec(s, pos, scope, content, table)->Ok_0.content,
            name,
        ),
    decreases s, s.len() - pos, 1nat,
{
    let p = parse_sequence_spec(s, pos, scope, content, table)->Ok_0;
    if 0 <= pos < s.len() {
        match s[pos] {
            TokenModel::Punct(punct) => {
                lemma_punct_gains_alike(punct, s, pos + 1, content, table, name);
                lemma_punct_is_sound(punct, s, pos + 1, content, table);
                let a = parse_punct_spec(punct, s, pos + 1, content, table)->Ok_0;
                if pos < a.next <= s.len() {
                    lemma_sequence_gains_alike(
                        s,
                        a.next,
                        scope,
                        a.progress.content,
                        a.progress.table,
                        name,
                    );
                    lemma_gains_add_up(
                        table,
                        content,
                        a.progress.table,
                        a.progress.content,
                        p.table,
                        p.content,
                        name,
                    );
                }
            },
            TokenModel::Group { .. } => {
                lemma_group_gains_alike(s[pos], content, table, name);
                lemma_group_is_sound(s[pos], content, table);
                let g = parse_group_spec(s[pos], content, table)->Ok_0;
                lemma_sequence_gains_alike(s, pos + 1, scope, g.content, g.table, name);
                lemma_gains_add_up(table, content, g.table, g.content, p.table, p.content, name);
            },
            _ => {
                if s[pos].is_word("for"@) {
                    lemma_for_gains_alike(s, pos, scope, content, table, name);
                } else {
                    let pushed = content.push(AlternativeModel::Tree(s[pos]));
                    lemma_content_uses_push(content, AlternativeModel::Tree(s[pos]), name);
                    let none = Seq::<UseModel>::empty();
                    assert(table_uses(table, name) + none =~= table_uses(table, name));
                    assert(content_uses(content, name) + none =~= content_uses(content, name));
                    assert(table_uses(table, name) == table_uses(table, name) + none);
                    assert(gained_alike(table, content, table, pushed, name));
                    lemma_sequence_gains_alike(s, pos + 1, scope, pushed, table, name);
                    lemma_gains_add_up(table, content, table, pushed, p.table, p.content, name);
                }
            },
        }
    } else {
        let none = Seq::<UseModel>::empty();
        assert(table_uses(table, name) + none =~= table_uses(table, name));
        assert(content_uses(content, name) + none =~= content_uses(content, name));
        assert(table_uses(p.table, name) == table_uses(table, name) + none);
    }
}

/// The table notes the uses as they are discovered: for an expression that
/// is read without fault, the uses that the table holds for the indexes of
/// a name, one index after the other, are the uses that the accesses of the
/// tree make of that name, each with its array and its position, in the
/// order in which the accesses are written.
pub proof fn lemma_table_lists_uses_in_order(s: Seq<TokenModel>, name: Seq<char>)
    requires
        parse_spec(s) is Ok,
    ensures
        table_uses(parse_spec(s)->Ok_0.table, name) == content_uses(
            parse_spec(s)->Ok_0.content,
            name,
        ),
{
    lemma_sequence_gains_alike(s, 0, Span::CallSite, Seq::empty(), Seq::empty(), name);
    let p = parse_spec(s)->Ok_0;
    let gain = choose|gain: Seq<UseModel>|
        #![trigger table_uses(Seq::empty(), name) + gain]
        table_uses(p.table, name) == table_uses(Seq::empty(), name) + gain && content_uses(
            p.content,
            name,
        ) == content_uses(Seq::empty(), name) + gain;
    assert(Seq::<UseModel>::empty() + gain =~= gain);
}

/// Whether the table `later` holds the indexes of `table` as open or closed
/// as they were, and holds every index behind them closed: every scope that
/// opened since has closed.
pub open spec fn scopes_restored(table: Seq<IndexEntryModel>, later: Seq<IndexEntryModel>) -> bool {
    &&& table.len() <= later.len()
    &&& forall|i: int|
        0 <= i < table.len() ==> (#[trigger] later[i]).index == table[i].index && later[i].open
            == table[i].open
    &&& forall|i: int| table.len() <= i < later.len() ==> !(#[trigger] later[i]).open
}

/// Declaring indexes leaves the indexes of the table as they are.
pub proof fn lemma_declare_all_keeps_table(table: Seq<IndexEntryModel>, indexes: Seq<IdentModel>, from: int)
    requires
        declare_all(table, indexes, from) is Ok,
    ensures
        table.len() <= declare_all(table, indexes, from)->Ok_0.len(),
        forall|i: int|
            0 <= i < table.len() ==> #[trigger] declare_all(table, indexes, from)->Ok_0[i]
                == table[i],
    decreases indexes.len() - from,
{
    if 0 <= from < indexes.len() {
        let next = declared(table, indexes[from])->Some_0;
        lemma_declare_all_keeps_table(next, indexes, from + 1);
        let end = declare_all(table, indexes, from)->Ok_0;
        assert forall|i: int| 0 <= i < table.len() implies #[trigger] end[i] == table[i] by {
            assert(next[i] == table[i]);
        }
    }
}

/// Noting uses opens no index and closes none.
pub proof fn lemma_note_all_keeps_scopes(
    table: Seq<IndexEntryModel>,
    indexes: Seq<IdentModel>,
    tensor: IdentModel,
    from: int,
)
    requires
        note_all(table, indexes, tensor, from) is Ok,
    ensures
        scopes_restored(table, note_all(table, indexes, tensor, from)->Ok_0),
        note_all(table, indexes, tensor, from)->Ok_0.len() == table.len(),
    decreases indexes.len() - from,
{
    if 0 <= from < indexes.len() {
        lemma_index_place(table, indexes[from].name, 0);
        let next = noted(table, indexes[from], tensor, from)->Some_0;
        lemma_note_all_keeps_scopes(next, indexes, tensor, from + 1);
        let end = note_all(table, indexes, tensor, from)->Ok_0;
        assert forall|i: int| 0 <= i < table.len() implies (#[trigger] end[i]).index
            == table[i].index && end[i].open == table[i].open by {
            assert(next[i].index == table[i].index && next[i].open == table[i].open);
        }
    }
}

/// Where every scope that opened between two tables has closed, and again
/// between the second and a third, every scope that opened between the first
/// and the third has closed.
pub proof fn lemma_scopes_restored_twice(
    table: Seq<IndexEntryModel>,
    middle: Seq<IndexEntryModel>,
    later: Seq<IndexEntryModel>,
)
    requires
        scopes_restored(table, middle),
        scopes_restored(middle, later),
    ensures
        scopes_restored(table, later),
{
    assert forall|i: int| 0 <= i < table.len() implies (#[trigger] later[i]).index
        == table[i].index && later[i].open == table[i].open by {
        assert(middle[i].index == table[i].index);
    }
    assert forall|i: int| table.len() <= i < later.len() implies !(#[trigger] later[i]).open by {
        if i < middle.len() {
            assert(!middle[i].open);
        }
    }
}

/// A scope that was read to its end has closed: of the table as it was when
/// the scope opened, every index is open or closed as before, and every
/// index that was declared since is closed.
pub proof fn lemma_scope_has_closed(
    table: Seq<IndexEntryModel>,
    opened: Seq<IndexEntryModel>,
    body: Seq<IndexEntryModel>,
)
    requires
        table.len() <= opened.len(),
        forall|i: int| 0 <= i < table.len() ==> #[trigger] opened[i] == table[i],
        scopes_restored(opened, body),
    ensures
        scopes_restored(table, closed_from(body, table.len() as int)),
{
    let later = closed_from(body, table.len() as int);
    assert forall|i: int| 0 <= i < table.len() implies (#[trigger] later[i]).index
        == table[i].index && later[i].open == table[i].open by {
        assert(body[i].index == opened[i].index);
        assert(opened[i] == table[i]);
    }
}

/// Reading a group closes every scope that it opens.
pub proof fn lemma_group_restores_scopes(
    group: TokenModel,
    content: Seq<AlternativeModel>,
    table: Seq<IndexEntryModel>,
)
    requires
        parse_group_spec(group, content, table) is Ok,
    ensures
        scopes_restored(table, parse_group_spec(group, content, table)->Ok_0.table),
    decreases group, 0nat, 0nat,
{
    match group {
        TokenModel::Group { delimiter, stream, span } => {
            match delimiter {
                crate::token::Delimiter::Brace => {},
                crate::token::Delimiter::Bracket => {
                    lemma_note_all_keeps_scopes(
                        table,
                        crate::parsing::listed_indexes(stream),
                        content.last()->Tree_0->Ident_0,
                        0,
                    );
                },
                _ => {
                    lemma_sequence_restores_scopes(stream, 0, span, Seq::empty(), table);
                },
            }
        },
        _ => {},
    }
}

/// Reading what follows a punctuation character closes every scope that it
/// opens.
pub proof fn lemma_punct_restores_scopes(
    punct: Punct,
    s: Seq<TokenModel>,
    pos: int,
    content: Seq<AlternativeModel>,
    table: Seq<IndexEntryModel>,
)
    requires
        parse_punct_spec(punct, s, pos, content, table) is Ok,
    ensures
        scopes_restored(table, parse_punct_spec(punct, s, pos, content, table)->Ok_0.progress.table),
    decreases s, s.len() - pos, 2nat,
{
    if punct.ch == '$' {
        let direct = crate::types::trailing_inverted(content).reverse();
        lemma_declare_all_keeps_table(table, direct, 0);
        let opened = declare_all(table, direct, 0)->Ok_0;
        lemma_sequence_restores_scopes(s, pos, punct.span, Seq::empty(), opened);
        let body = parse_sequence_spec(s, pos, punct.span, Seq::empty(), opened)->Ok_0;
        lemma_scope_has_closed(table, opened, body.table);
    }
}

/// Reading a scope that opens with `for` closes it, and every scope that
/// opens inside.
pub proof fn lemma_for_restores_scopes(
    s: Seq<TokenModel>,
    pos: int,
    scope: Span,
    content: Seq<AlternativeModel>,
    table: Seq<IndexEntryModel>,
)
    requires
        parse_for_spec(s, pos, scope, content, table) is Ok,
    ensures
        scopes_restored(table, parse_for_spec(s, pos, scope, content, table)->Ok_0.table),
    decreases s, s.len() - pos, 0nat,
{
    let header = crate::model::header::parse_index_declaration(s, pos, scope)->Ok_0;
    lemma_declare_all_keeps_table(table, header.value, 0);
    let opened = declare_all(table, header.value, 0)->Ok_0;
    lemma_sequence_restores_scopes(s, header.next + 2, s[pos].span(), Seq::empty(), opened);
    let body = parse_sequence_spec(s, header.next + 2, s[pos].span(), Seq::empty(), opened)->Ok_0;
    lemma_scope_has_closed(table, opened, body.table);
}

/// Reading a sequence of tokens closes every scope that it opens: the
/// indexes that were open before are open after, those that were closed are
/// closed, and every index that was declared in between is closed.
pub proof fn lemma_sequence_restores_scopes(
    s: Seq<TokenModel>,
    pos: int,
    scope: Span,
    content: Seq<AlternativeModel>,
    table: Seq<IndexEntryModel>,
)
    requires
        parse_sequence_spec(s, pos, scope, content, table) is Ok,
    ensures
        scopes_restored(table, parse_sequence_spec(s, pos, scope, content, table)->Ok_0.table),
    decreases s, s.len() - pos, 1nat,
{
    let p = parse_sequence_spec(s, pos, scope, content, table)->Ok_0;
    if 0 <= pos < s.len() {
        match s[pos] {
            TokenModel::Punct(punct) => {
                lemma_punct_restores_scopes(punct, s, pos + 1, content, table);
                let a = parse_punct_spec(punct, s, pos + 1, content, table)->Ok_0;
                if pos < a.next <= s.len() {
                    lemma_sequence_restores_scopes(
                        s,
                        a.next,
                        scope,
                        a.progress.content,
                        a.progress.table,
                    );
                    lemma_scopes_restored_twice(table, a.progress.table, p.table);
                }
            },
            TokenModel::Group { .. } => {
                lemma_group_restores_scopes(s[pos], content, table);
                let g = parse_group_spec(s[pos], content, table)->Ok_0;
                lemma_sequence_restores_scopes(s, pos + 1, scope, g.content, g.table);
                lemma_scopes_restored_twice(table, g.table, p.table);
            },
            _ => {
                if s[pos].is_word("for"@) {
                    lemma_for_restores_scopes(s, pos, scope, content, table);
                } else {
                    lemma_sequence_restores_scopes(
                        s,
                        pos + 1,
                        scope,
                        content.push(AlternativeModel::Tree(s[pos])),
                        table,
                    );
                }
            },
        }
    }
}

/// When an expression is read without fault, every scope has closed: no
/// index of its table is open.
pub proof fn lemma_every_scope_has_closed(s: Seq<TokenModel>)
    requires
        parse_spec(s) is Ok,
    ensures
        forall|i: int|
            0 <= i < parse_spec(s)->Ok_0.table.len() ==> !(#[trigger] parse_spec(
                s,
            )->Ok_0.table[i]).open,
{
    lemma_sequence_restores_scopes(s, 0, Span::CallSite, Seq::empty(), Seq::empty());
}

/// After the scopes that declared a name have closed, the name is unknown
/// and free: to use it is refused, and to declare it anew gives an index of
/// its own, without uses, behind the others.
pub proof fn lemma_closed_name_is_free(
    table: Seq<IndexEntryModel>,
    index: IdentModel,
    tensor: IdentModel,
    position: int,
)
    requires
        forall|i: int|
            0 <= i < table.len() && (#[trigger] table[i]).index.name == index.name ==> !table[i].open,
    ensures
        noted(table, index, tensor, position) is None,
        declared(table, index) == Some(
            table.push(IndexEntryModel { index, uses: Seq::empty(), open: true }),
        ),
{
    lemma_index_place(table, index.name, 0);
}

/// Whether the table `later` holds the indexes of `table` in their places.
pub open spec fn indexes_kept(table: Seq<IndexEntryModel>, later: Seq<IndexEntryModel>) -> bool {
    &&& table.len() <= later.len()
    &&& forall|i: int| 0 <= i < table.len() ==> (#[trigger] later[i]).index == table[i].index
}

/// How many indexes of a name stand before a place depends on the indexes
/// before that place alone.
pub proof fn lemma_count_kept(
    table: Seq<IndexEntryModel>,
    later: Seq<IndexEntryModel>,
    name: Seq<char>,
    upto: int,
)
    requires
        indexes_kept(table, later),
        upto <= table.len(),
    ensures
        count_named(later, name, upto) == count_named(table, name, upto),
    decreases upto,
{
    if upto > 0 {
        lemma_count_kept(table, later, name, upto - 1);
        assert(later[upto - 1].index == table[upto - 1].index);
    }
}

/// Indexes of other names do not count.
pub proof fn lemma_count_skips(table: Seq<IndexEntryModel>, name: Seq<char>, from: int, upto: int)
    requires
        0 <= from <= upto <= table.len(),
        forall|i: int| from <= i < upto ==> (#[trigger] table[i]).index.name != name,
    ensures
        count_named(table, name, upto) == count_named(table, name, from),
    decreases upto - from,
{
    if from < upto {
        lemma_count_skips(table, name, from, upto - 1);
    }
}

/// The indexes that a scope declares come to stand at the end of the table,
/// open, in the order of their declaration, and no two of them share a
/// name.
pub proof fn lemma_declare_all_places(table: Seq<IndexEntryModel>, indexes: Seq<IdentModel>, from: int)
    requires
        0 <= from <= indexes.len(),
        declare_all(table, indexes, from) is Ok,
    ensures
        declare_all(table, indexes, from)->Ok_0.len() == table.len() + indexes.len() - from,
        forall|i: int|
            0 <= i < table.len() ==> #[trigger] declare_all(table, indexes, from)->Ok_0[i]
                == table[i],
        forall|k: int|
            from <= k < indexes.len() ==> (#[trigger] declare_all(
                table,
                indexes,
                from,
            )->Ok_0[table.len() + k - from]).index == indexes[k],
        forall|j: int, k: int|
            from <= j < k < indexes.len() ==> (#[trigger] indexes[j]).name != (
            #[trigger] indexes[k]).name,
    decreases indexes.len() - from,
{
    if from < indexes.len() {
        let next = declared(table, indexes[from])->Some_0;
        lemma_declare_all_places(next, indexes, from + 1);
        let end = declare_all(table, indexes, from)->Ok_0;
        assert(end == declare_all(next, indexes, from + 1)->Ok_0);
        assert forall|i: int| 0 <= i < table.len() implies #[trigger] end[i] == table[i] by {
            assert(next[i] == table[i]);
        }
        assert forall|k: int| from <= k < indexes.len() implies (#[trigger] end[table.len() + k
            - from]).index == indexes[k] by {
            if k == from {
                assert(end[table.len() as int] == next[table.len() as int]);
            } else {
                assert(end[next.len() + k - (from + 1)].index == indexes[k]);
            }
        }
        assert forall|j: int, k: int| from <= j < k < indexes.len() implies (#[trigger] indexes[j]).name
            != (#[trigger] indexes[k]).name by {
            if j == from {
                lemma_first_differs_from_later(next, indexes, from + 1, k, table.len() as int);
            }
        }
    }
}

/// An index that is declared behind an open index has another name.
pub proof fn lemma_first_differs_from_later(
    table: Seq<IndexEntryModel>,
    indexes: Seq<IdentModel>,
    from: int,
    k: int,
    place: int,
)
    requires
        0 <= from <= k < indexes.len(),
        0 <= place < table.len(),
        table[place].open,
        declare_all(table, indexes, from) is Ok,
    ensures
        indexes[k].name != table[place].index.name,
    decreases indexes.len() - from,
{
    lemma_index_place(table, indexes[from].name, 0);
    if from < k {
        let next = declared(table, indexes[from])->Some_0;
        assert(next[place] == table[place]);
        lemma_first_differs_from_later(next, indexes, from + 1, k, place);
    }
}

/// The ranks that are taken before a scope declares its indexes are the
/// ranks that the indexes have in the table once they are declared: for
/// each, how many indexes of its name stand before it.
pub proof fn lemma_declared_ranks(table: Seq<IndexEntryModel>, indexes: Seq<IdentModel>, k: int)
    requires
        declare_all(table, indexes, 0) is Ok,
        0 <= k < indexes.len(),
    ensures
        declare_all(table, indexes, 0)->Ok_0[table.len() + k].index == indexes[k],
        count_named(
            declare_all(table, indexes, 0)->Ok_0,
            indexes[k].name,
            table.len() + k,
        ) as usize == ranks_of(table, indexes)[k],
{
    let opened = declare_all(table, indexes, 0)->Ok_0;
    let base = table.len() as int;
    lemma_declare_all_places(table, indexes, 0);
    assert(opened[base + k - 0].index == indexes[k]);
    assert forall|i: int| base <= i < base + k implies (#[trigger] opened[i]).index.name
        != indexes[k].name by {
        assert(opened[base + (i - base) - 0].index == indexes[i - base]);
        assert(indexes[i - base].name != indexes[k].name);
    }
    lemma_count_skips(opened, indexes[k].name, base, base + k);
    assert(indexes_kept(table, opened)) by {
        assert forall|i: int| 0 <= i < table.len() implies (#[trigger] opened[i]).index
            == table[i].index by {
            assert(opened[i] == table[i]);
        }
    }
    lemma_count_kept(table, opened, indexes[k].name, base);
}

/// The rank of an index never changes: whatever is read after its
/// declaration, it keeps its place in the table and the count of the
/// indexes of its name before it.
pub proof fn lemma_rank_is_kept(table: Seq<IndexEntryModel>, later: Seq<IndexEntryModel>, k: int)
    requires
        scopes_restored(table, later),
        0 <= k < table.len(),
    ensures
        later[k].index == table[k].index,
        count_named(later, later[k].index.name, k) == count_named(table, table[k].index.name, k),
{
    lemma_count_kept(table, later, table[k].index.name, k);
}

/// The tree and the table agree on the ranks of the indexes of a scope that
/// is written with `$`: when the scope has closed, its indexes stand in the
/// table where the table ended when the scope opened, in the order in which
/// they are written, and each has the rank that the tree holds for it.
pub proof fn lemma_scope_ranks_match(
    punct: Punct,
    s: Seq<TokenModel>,
    pos: int,
    content: Seq<AlternativeModel>,
    table: Seq<IndexEntryModel>,
    k: int,
)
    requires
        punct.ch == '$',
        parse_punct_spec(punct, s, pos, content, table) is Ok,
        0 <= k < crate::types::trailing_inverted(content).len(),
    ensures
        ({
            let a = parse_punct_spec(punct, s, pos, content, table)->Ok_0.progress;
            let f = a.content.last()->Func_0;
            let n = f.inverted_indexes.len();
            &&& a.content.last() is Func
            &&& table.len() + k < a.table.len()
            &&& a.table[table.len() + k].index == f.inverted_indexes[n - 1 - k]
            &&& count_named(
                a.table,
                f.inverted_indexes[n - 1 - k].name,
                table.len() + k,
            ) as usize == crate::sequentialization::rank_at(f.inverted_ranks, n - 1 - k)
        }),
{
    let inverted = crate::types::trailing_inverted(content);
    let direct = inverted.reverse();
    let n = inverted.len() as int;
    let base = table.len() as int;
    let opened = declare_all(table, direct, 0)->Ok_0;
    let body = parse_sequence_spec(s, pos, punct.span, Seq::empty(), opened)->Ok_0;
    let end = closed_from(body.table, base);
    lemma_declared_ranks(table, direct, k);
    lemma_declare_all_places(table, direct, 0);
    lemma_sequence_restores_scopes(s, pos, punct.span, Seq::empty(), opened);
    assert(direct[k] == inverted[n - 1 - k]);
    assert(indexes_kept(opened, end)) by {
        assert forall|i: int| 0 <= i < opened.len() implies (#[trigger] end[i]).index
            == opened[i].index by {
            assert(body.table[i].index == opened[i].index);
        }
    }
    lemma_count_kept(opened, end, direct[k].name, base + k);
    assert(end[base + k].index == opened[base + k].index);
}

/// The tree and the table agree on the ranks of the indexes of a scope that
/// is written with `for`.
pub proof fn lemma_for_ranks_match(
    s: Seq<TokenModel>,
    pos: int,
    scope: Span,
    content: Seq<AlternativeModel>,
    table: Seq<IndexEntryModel>,
    k: int,
)
    requires
        parse_for_spec(s, pos, scope, content, table) is Ok,
        0 <= k < crate::model::header::parse_index_declaration(s, pos, scope)->Ok_0.value.len(),
    ensures
        ({
            let a = parse_for_spec(s, pos, scope, content, table)->Ok_0;
            let f = a.content.last()->Func_0;
            let n = f.inverted_indexes.len();
            &&& a.content.last() is Func
            &&& table.len() + k < a.table.len()
            &&& a.table[table.len() + k].index == f.inverted_indexes[n - 1 - k]
            &&& count_named(
                a.table,
                f.inverted_indexes[n - 1 - k].name,
                table.len() + k,
            ) as usize == crate::sequentialization::rank_at(f.inverted_ranks, n - 1 - k)
        }),
{
    let header = crate::model::header::parse_index_declaration(s, pos, scope)->Ok_0;
    let direct = header.value;
    let inverted = direct.reverse();
    let n = direct.len() as int;
    let base = table.len() as int;
    let opened = declare_all(table, direct, 0)->Ok_0;
    let body = parse_sequence_spec(s, header.next + 2, s[pos].span(), Seq::empty(), opened)->Ok_0;
    let end = closed_from(body.table, base);
    lemma_declared_ranks(table, direct, k);
    lemma_declare_all_places(table, direct, 0);
    lemma_sequence_restores_scopes(s, header.next + 2, s[pos].span(), Seq::empty(), opened);
    assert(inverted[n - 1 - k] == direct[k]);
    assert(indexes_kept(opened, end)) by {
        assert forall|i: int| 0 <= i < opened.len() implies (#[trigger] end[i]).index
            == opened[i].index by {
            assert(body.table[i].index == opened[i].index);
        }
    }
    lemma_count_kept(opened, end, direct[k].name, base + k);
    assert(end[base + k].index == opened[base + k].index);
    assert(ranks_of(table, inverted)[n - 1 - k] == ranks_of(table, direct)[k]);
}

} // verus!

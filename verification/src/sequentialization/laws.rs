//! What holds of the names of the extent variables: the indexes of one name
//! get variables of different names, one for each.
use crate::emit::{decimal, digit};
use crate::sequentialization::{dimension_name, rank_in, stem};
use crate::types::{count_named, IndexEntryModel};
use vstd::prelude::*;

verus! {

/// A number written in base ten has at least one digit, and has one digit
/// exactly where it is less than ten.
pub proof fn lemma_decimal_len(n: nat)
    ensures
        decimal(n).len() >= 1,
        n < 10 <==> decimal(n).len() == 1,
    decreases n,
{
    if n >= 10 {
        lemma_decimal_len(n / 10);
    }
}

/// Two numbers that are written alike in base ten are the same number.
pub proof fn lemma_decimal_is_one_to_one(a: nat, b: nat)
    requires
        decimal(a) == decimal(b),
    ensures
        a == b,
    decreases a,
{
    lemma_decimal_len(a);
    lemma_decimal_len(b);
    if a < 10 {
        assert(decimal(a)[0] == digit(a as int));
        assert(decimal(b)[0] == digit(b as int));
    } else {
        let x = decimal(a / 10).push(digit((a % 10) as int));
        let y = decimal(b / 10).push(digit((b % 10) as int));
        assert(x.last() == y.last());
        assert(x.drop_last() =~= decimal(a / 10));
        assert(y.drop_last() =~= decimal(b / 10));
        lemma_decimal_is_one_to_one(a / 10, b / 10);
        assert(a % 10 == b % 10);
    }
}

/// Among the indexes of one name, a later index has a greater count of
/// indexes of that name before it.
pub proof fn lemma_count_grows(table: Seq<IndexEntryModel>, name: Seq<char>, i: int, j: int)
    requires
        0 <= i < j <= table.len(),
        table[i].index.name == name,
    ensures
        count_named(table, name, i) < count_named(table, name, j),
        count_named(table, name, j) <= j,
    decreases j,
{
    lemma_count_bound(table, name, j);
    if i + 1 < j {
        lemma_count_grows(table, name, i, j - 1);
    } else {
        lemma_count_bound(table, name, i);
    }
}

/// No more indexes stand before a place than there are places before it.
pub proof fn lemma_count_bound(table: Seq<IndexEntryModel>, name: Seq<char>, upto: int)
    ensures
        count_named(table, name, upto) <= if upto < 0 {
            0
        } else {
            upto
        },
    decreases upto,
{
    if upto > 0 {
        lemma_count_bound(table, name, upto - 1);
    }
}

/// Two ranks give one name two different extent variables.
pub proof fn lemma_ranks_give_different_names(name: Seq<char>, first: usize, second: usize)
    requires
        first != second,
    ensures
        dimension_name(name, first) != dimension_name(name, second),
{
    reveal_strlit("_dimension");
    reveal_strlit("_dimension_");
    let head = stem(name);
    let a = dimension_name(name, first);
    let b = dimension_name(name, second);
    lemma_decimal_len(first as nat);
    lemma_decimal_len(second as nat);
    if first == 0 || second == 0 {
        assert(a.len() != b.len());
    } else if a == b {
        let cut = head.len() + 11;
        assert(a.skip(cut as int) =~= decimal(first as nat));
        assert(b.skip(cut as int) =~= decimal(second as nat));
        lemma_decimal_is_one_to_one(first as nat, second as nat);
    }
}

/// The indexes of one name get extent variables of different names: two
/// indexes of a table that have the same name, and so belong to scopes that
/// stand side by side, differ in their ranks and in the names of the
/// variables that hold their extents.
pub proof fn lemma_indexes_of_one_name_get_different_variables(
    table: Seq<IndexEntryModel>,
    i: int,
    j: int,
)
    requires
        0 <= i < j < table.len() <= usize::MAX,
        table[i].index.name == table[j].index.name,
    ensures
        rank_in(table, i) != rank_in(table, j),
        dimension_name(table[i].index.name, rank_in(table, i)) != dimension_name(
            table[j].index.name,
            rank_in(table, j),
        ),
{
    let name = table[i].index.name;
    lemma_count_grows(table, name, i, j);
    lemma_count_bound(table, name, i);
    lemma_ranks_give_different_names(name, rank_in(table, i), rank_in(table, j));
}

} // verus!

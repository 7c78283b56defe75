use vstd::prelude::*;
use crate::text::{str_same, string_same, text_views};

verus! {

/// How two texts compare when both are read as floating-point numbers.
#[derive(Debug, Clone, Copy, PartialEq, Eq, Structural)]
pub enum NumericOrder {
    /// One of the two is no number.
    NotNumeric,
    Less,
    Equal,
    Greater,
    /// Both are numbers, and one of them is not a number in the sense of
    /// floating point: it is neither below, nor equal to, nor above the other.
    Unordered,
}

/// A way to fold the numbers among some texts into one.
#[derive(Debug, Clone, Copy, PartialEq, Eq, Structural)]
pub enum FoldKind {
    Sum,
    Avg,
    Min,
    Max,
}

/// A question that only floating-point arithmetic can answer, and that the
/// engine therefore puts to its caller.
#[derive(Debug)]
pub enum NumberQuery {
    /// How do `left` and `right` compare as numbers?
    Compare { left: String, right: String },
    /// What do the numbers among `values` fold to, written as text?
    Fold { kind: FoldKind, values: Vec<String> },
}

/// The mathematical value of a `NumberQuery`.
pub enum QueryModel {
    Compare { left: Seq<char>, right: Seq<char> },
    Fold { kind: FoldKind, values: Seq<Seq<char>> },
}

impl View for NumberQuery {
    type V = QueryModel;

    open spec fn view(&self) -> QueryModel {
        match self {
            NumberQuery::Compare { left, right } => QueryModel::Compare { left: left@, right: right@ },
            NumberQuery::Fold { kind, values } => QueryModel::Fold {
                kind: *kind,
                values: text_views(values@),
            },
        }
    }
}

/// The views of `queries`, in order.
pub open spec fn query_views(queries: Seq<NumberQuery>) -> Seq<QueryModel> {
    Seq::new(queries.len(), |i: int| queries[i]@)
}

/// The answers that the caller has given so far.
pub struct FactsModel {
    pub orders: Map<(Seq<char>, Seq<char>), NumericOrder>,
    pub folds: Map<(FoldKind, Seq<Seq<char>>), Seq<char>>,
}

impl FactsModel {
    /// Whether `query` has its answer.
    pub open spec fn answers(self, query: QueryModel) -> bool {
        match query {
            QueryModel::Compare { left, right } => self.orders.contains_key((left, right)),
            QueryModel::Fold { kind, values } => self.folds.contains_key((kind, values)),
        }
    }
}

/// One recorded comparison.
#[derive(Debug)]
pub struct OrderFact {
    left: String,
    right: String,
    order: NumericOrder,
}

/// One recorded fold.
#[derive(Debug)]
pub struct FoldFact {
    kind: FoldKind,
    values: Vec<String>,
    text: String,
}

/// The comparisons recorded in `facts`, a later one replacing an earlier one
/// of the same two texts.
pub closed spec fn order_map(facts: Seq<OrderFact>) -> Map<(Seq<char>, Seq<char>), NumericOrder>
    decreases facts.len(),
{
    if facts.len() == 0 {
        Map::empty()
    } else {
        order_map(facts.drop_last()).insert((facts.last().left@, facts.last().right@), facts.last().order)
    }
}

/// The folds recorded in `facts`, a later one replacing an earlier one of the
/// same kind and texts.
pub closed spec fn fold_map(facts: Seq<FoldFact>) -> Map<(FoldKind, Seq<Seq<char>>), Seq<char>>
    decreases facts.len(),
{
    if facts.len() == 0 {
        Map::empty()
    } else {
        fold_map(facts.drop_last()).insert(
            (facts.last().kind, text_views(facts.last().values@)),
            facts.last().text@,
        )
    }
}

/// Whether two vectors of strings hold the same texts.
pub fn same_texts(a: &Vec<String>, b: &Vec<String>) -> (same: bool)
    ensures
        same == (text_views(a@) == text_views(b@)),
{
    if a.len() != b.len() {
        assert(text_views(a@).len() != text_views(b@).len());
        return false;
    }
    let mut i: usize = 0;
    while i < a.len()
        invariant
            i <= a.len(),
            a.len() == b.len(),
            forall|j: int| 0 <= j < i ==> a[j]@ == b[j]@,
        decreases a.len() - i,
    {
        if !string_same(&a[i], &b[i]) {
            assert(text_views(a@)[i as int] != text_views(b@)[i as int]);
            return false;
        }
        i = i + 1;
    }
    assert(text_views(a@) =~= text_views(b@));
    true
}

/// Copies of `texts`, in order.
pub fn copy_texts(texts: &Vec<String>) -> (copies: Vec<String>)
    ensures
        text_views(copies@) == text_views(texts@),
{
    let mut copies: Vec<String> = Vec::new();
    let mut i: usize = 0;
    while i < texts.len()
        invariant
            i <= texts.len(),
            copies.len() == i,
            forall|j: int| 0 <= j < i ==> copies[j]@ == texts[j]@,
        decreases texts.len() - i,
    {
        copies.push(texts[i].clone());
        i = i + 1;
    }
    assert(text_views(copies@) =~= text_views(texts@));
    copies
}

/// The table of answers to numeric questions that the caller hands to the
/// engine with each statement.
#[derive(Debug)]
pub struct NumberFacts {
    orders: Vec<OrderFact>,
    folds: Vec<FoldFact>,
}

impl View for NumberFacts {
    type V = FactsModel;

    closed spec fn view(&self) -> FactsModel {
        FactsModel { orders: order_map(self.orders@), folds: fold_map(self.folds@) }
    }
}

impl NumberFacts {
    /// A table without answers.
    pub fn new() -> (facts: Self)
        ensures
            facts@.orders == Map::<(Seq<char>, Seq<char>), NumericOrder>::empty(),
            facts@.folds == Map::<(FoldKind, Seq<Seq<char>>), Seq<char>>::empty(),
    {
        NumberFacts { orders: Vec::new(), folds: Vec::new() }
    }

    /// Records how `left` and `right` compare as numbers.
    pub fn record_order(&mut self, left: String, right: String, order: NumericOrder)
        ensures
            final(self)@.orders == old(self)@.orders.insert((left@, right@), order),
            final(self)@.folds == old(self)@.folds,
    {
        self.orders.push(OrderFact { left, right, order });
        assert(self.orders@.drop_last() =~= old(self).orders@);
    }

    /// Records that the numbers among `values` fold to `text` by `kind`.
    pub fn record_fold(&mut self, kind: FoldKind, values: Vec<String>, text: String)
        ensures
            final(self)@.folds == old(self)@.folds.insert((kind, text_views(values@)), text@),
            final(self)@.orders == old(self)@.orders,
    {
        self.folds.push(FoldFact { kind, values, text });
        assert(self.folds@.drop_last() =~= old(self).folds@);
    }

    /// How `left` and `right` compare as numbers, if that was recorded.
    pub fn order_of(&self, left: &str, right: &str) -> (known: Option<NumericOrder>)
        ensures
            match known {
                Some(order) => self@.orders.contains_key((left@, right@)) && self@.orders[(
                    left@,
                    right@,
                )] == order,
                None => !self@.orders.contains_key((left@, right@)),
            },
    {
        let mut i: usize = self.orders.len();
        assert(self.orders@.subrange(0, i as int) =~= self.orders@);
        while i > 0
            invariant
                i <= self.orders.len(),
                self@.orders.contains_key((left@, right@)) == order_map(
                    self.orders@.subrange(0, i as int),
                ).contains_key((left@, right@)),
                self@.orders.contains_key((left@, right@)) ==> self@.orders[(left@, right@)]
                    == order_map(self.orders@.subrange(0, i as int))[(left@, right@)],
            decreases i,
        {
            let ghost part = self.orders@.subrange(0, i as int);
            i = i - 1;
            assert(part.drop_last() =~= self.orders@.subrange(0, i as int));
            assert(part.last() == self.orders[i as int]);
            if str_same(self.orders[i].left.as_str(), left) && str_same(
                self.orders[i].right.as_str(),
                right,
            ) {
                return Some(self.orders[i].order);
            }
        }
        None
    }

    /// What the numbers among `values` fold to by `kind`, if that was recorded.
    pub fn fold_of(&self, kind: FoldKind, values: &Vec<String>) -> (known: Option<String>)
        ensures
            match known {
                Some(text) => self@.folds.contains_key((kind, text_views(values@)))
                    && self@.folds[(kind, text_views(values@))] == text@,
                None => !self@.folds.contains_key((kind, text_views(values@))),
            },
    {
        let ghost key = (kind, text_views(values@));
        let mut i: usize = self.folds.len();
        assert(self.folds@.subrange(0, i as int) =~= self.folds@);
        while i > 0
            invariant
                i <= self.folds.len(),
                key == (kind, text_views(values@)),
                self@.folds.contains_key(key) == fold_map(self.folds@.subrange(0, i as int)).contains_key(
                    key,
                ),
                self@.folds.contains_key(key) ==> self@.folds[key] == fold_map(
                    self.folds@.subrange(0, i as int),
                )[key],
            decreases i,
        {
            let ghost part = self.folds@.subrange(0, i as int);
            i = i - 1;
            assert(part.drop_last() =~= self.folds@.subrange(0, i as int));
            assert(part.last() == self.folds[i as int]);
            if self.folds[i].kind == kind && same_texts(&self.folds[i].values, values) {
                return Some(self.folds[i].text.clone());
            }
        }
        None
    }
}

} // verus!

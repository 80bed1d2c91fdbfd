//! The pattern tree: what the parser builds and the matcher reads.
use crate::util::Boxed;
use vstd::prelude::*;

verus! {

/// One member of a character class: a single character or an inclusive range.
#[derive(Debug, Clone, Copy, PartialEq, Eq)]
pub enum ClassItem {
    Char(char),
    Range(char, char),
}

/// `[LIST]` or, with `deny`, `[^LIST]`.
#[derive(Debug, Clone, PartialEq, Eq)]
pub struct Class {
    pub deny: bool,
    pub list: Vec<ClassItem>,
}

impl Class {
    pub fn new(deny: bool, list: Vec<ClassItem>) -> (r: Self)
        ensures
            r.deny == deny,
            r.list == list,
    {
        Self { deny, list }
    }
}

/// `PAT?`, `PAT*`, `PAT+`, `PAT{n}`, `PAT{n,}`, `PAT{,m}` or `PAT{n,m}`:
/// between `min` and `max` repetitions of `what`. `usize::MAX` as `max`
/// stands for "no upper bound".
#[derive(Debug, PartialEq, Eq)]
pub struct Quantifier {
    pub min: usize,
    pub max: usize,
    pub what: Boxed<Pattern>,
}

impl Quantifier {
    /// Between `min` and `max` repetitions of `pat`.
    pub fn new(pat: Pattern, min: usize, max: usize) -> (r: Self)
        requires
            min <= max,
        ensures
            r.min == min,
            r.max == max,
            *r.what.0 == pat,
    {
        Self { min, max, what: Boxed::new(pat) }
    }

    /// `pat?`: `pat` or nothing.
    pub fn optional(pat: Pattern) -> (r: Self)
        ensures
            r.min == 0,
            r.max == 1,
            *r.what.0 == pat,
    {
        Self { min: 0, max: 1, what: Boxed::new(pat) }
    }

    /// `min` or more repetitions of `pat`.
    pub fn at_least(pat: Pattern, min: usize) -> (r: Self)
        ensures
            r.min == min,
            r.max == usize::MAX,
            *r.what.0 == pat,
    {
        Self { min, max: usize::MAX, what: Boxed::new(pat) }
    }

    /// Up to `max` repetitions of `pat`.
    pub fn at_most(pat: Pattern, max: usize) -> (r: Self)
        ensures
            r.min == 0,
            r.max == max,
            *r.what.0 == pat,
    {
        Self { min: 0, max, what: Boxed::new(pat) }
    }

    /// `count` repetitions of `pat`.
    pub fn exactly(pat: Pattern, count: usize) -> (r: Self)
        ensures
            r.min == count,
            r.max == count,
            *r.what.0 == pat,
    {
        Self { min: count, max: count, what: Boxed::new(pat) }
    }
}

#[derive(Debug, PartialEq, Eq)]
pub enum Pattern {
    /// Another rule, by its interned id, with an optional capture name id.
    Reference(usize, Option<usize>),
    /// Text to match verbatim, escapes already resolved.
    Literal(String),
    Class(Class),
    Quantifier(Quantifier),
    /// Sub-patterns that must match one after the other.
    Group(Vec<Pattern>),
    /// Alternatives, tried in order.
    Or(Vec<Pattern>),
}

/// The mathematical value of a [`Pattern`].
pub enum PatternModel {
    Reference(usize, Option<usize>),
    Literal(Seq<char>),
    Class(bool, Seq<ClassItem>),
    Quantifier(usize, usize, Box<PatternModel>),
    Group(Seq<PatternModel>),
    Or(Seq<PatternModel>),
}

/// The models of the first `n` patterns of `v`.
pub open spec fn models_of(v: Seq<Pattern>, n: nat) -> Seq<PatternModel>
    decreases v, n,
{
    if 0 < n <= v.len() {
        models_of(v, (n - 1) as nat).push(v[n - 1].view())
    } else {
        Seq::empty()
    }
}

/// `models_of` keeps the length and maps each pattern to its model.
pub proof fn lemma_models_of(v: Seq<Pattern>, n: nat)
    requires
        n <= v.len(),
    ensures
        models_of(v, n).len() == n,
        forall|i: int| 0 <= i < n ==> (#[trigger] models_of(v, n)[i]) == v[i].view(),
    decreases n,
{
    if n > 0 {
        lemma_models_of(v, (n - 1) as nat);
        assert(models_of(v, n) == models_of(v, (n - 1) as nat).push(v[n - 1].view()));
    }
}

/// The models of all the patterns of `v`.
pub open spec fn views(v: Seq<Pattern>) -> Seq<PatternModel> {
    models_of(v, v.len())
}

/// `views` maps pattern by pattern, so it goes along with `push` and
/// `drop_last`.
pub proof fn lemma_views(v: Seq<Pattern>)
    ensures
        views(v).len() == v.len(),
        forall|i: int| 0 <= i < v.len() ==> (#[trigger] views(v)[i]) == v[i].view(),
        forall|p: Pattern| #[trigger] views(v.push(p)) == views(v).push(p.view()),
        v.len() > 0 ==> views(v.drop_last()) == views(v).drop_last() && views(v).last()
            == v.last().view(),
{
    lemma_models_of(v, v.len());
    assert forall|p: Pattern| #[trigger] views(v.push(p)) == views(v).push(p.view()) by {
        lemma_models_of(v.push(p), v.len() + 1);
        assert(views(v.push(p)) =~= views(v).push(p.view()));
    }
    if v.len() > 0 {
        lemma_models_of(v.drop_last(), (v.len() - 1) as nat);
        assert(views(v.drop_last()) =~= views(v).drop_last());
    }
}

impl View for Pattern {
    type V = PatternModel;

    open spec fn view(&self) -> PatternModel
        decreases *self,
    {
        match *self {
            Pattern::Reference(id, name) => PatternModel::Reference(id, name),
            Pattern::Literal(s) => PatternModel::Literal(s@),
            Pattern::Class(c) => PatternModel::Class(c.deny, c.list@),
            Pattern::Quantifier(q) => PatternModel::Quantifier(
                q.min,
                q.max,
                Box::new((*q.what.0).view()),
            ),
            Pattern::Group(v) => PatternModel::Group(models_of(v@, v@.len())),
            Pattern::Or(v) => PatternModel::Or(models_of(v@, v@.len())),
        }
    }
}

impl PatternModel {
    /// Every quantifier in the tree has `min <= max`.
    pub open spec fn wf(self) -> bool
        decreases self,
    {
        match self {
            PatternModel::Quantifier(min, max, what) => min <= max && what.wf(),
            PatternModel::Group(v) => forall|i: int| 0 <= i < v.len() ==> (#[trigger] v[i]).wf(),
            PatternModel::Or(v) => forall|i: int| 0 <= i < v.len() ==> (#[trigger] v[i]).wf(),
            _ => true,
        }
    }
}

/// Whether every pattern of `v` is well-formed.
pub open spec fn all_wf(v: Seq<PatternModel>) -> bool {
    forall|i: int| 0 <= i < v.len() ==> (#[trigger] v[i]).wf()
}

} // verus!

//! Anchored, greedy matching of a pattern against the start of a text.
//!
//! The meaning of a pattern is [`match_len`]: the number of characters of the
//! text that the pattern takes, if it matches at all. The executable
//! [`Consume::consume`] returns that prefix's length in bytes.
use crate::pattern::pattern::{
    lemma_views, views, Class, ClassItem, Pattern, PatternModel, Quantifier,
};
use crate::text::{
    byte_len, char_width, first_char, len_utf8, lemma_utf8_take_add, lemma_utf8_take_first,
    lemma_utf8_take_monotonic, skip_chars, starts_with, utf8_len,
};
use vstd::prelude::*;

verus! {

/// Whether the class member `item` admits the character `c`.
pub open spec fn item_holds(item: ClassItem, c: char) -> bool {
    match item {
        ClassItem::Char(x) => c == x,
        ClassItem::Range(lo, hi) => lo <= c && c <= hi,
    }
}

/// Whether some member of `list` admits `c`.
pub open spec fn list_holds(list: Seq<ClassItem>, c: char) -> bool {
    exists|i: int| 0 <= i < list.len() && item_holds(#[trigger] list[i], c)
}

/// What a single class member takes from `s`.
pub open spec fn item_match(item: ClassItem, s: Seq<char>) -> Option<nat> {
    if s.len() > 0 && item_holds(item, s[0]) {
        Some(1)
    } else {
        None
    }
}

/// What a character class takes from `s`: one character that the list
/// admits or, for a denying class, one that it does not admit. At the end
/// of the text a denying class matches the empty prefix.
pub open spec fn class_match(deny: bool, list: Seq<ClassItem>, s: Seq<char>) -> Option<nat> {
    if deny {
        if s.len() == 0 {
            Some(0)
        } else if list_holds(list, s[0]) {
            None
        } else {
            Some(1)
        }
    } else {
        if s.len() > 0 && list_holds(list, s[0]) {
            Some(1)
        } else {
            None
        }
    }
}

/// What a literal takes from `s`.
pub open spec fn literal_match(lit: Seq<char>, s: Seq<char>) -> Option<nat> {
    if lit.is_prefix_of(s) {
        Some(lit.len())
    } else {
        None
    }
}

/// Number of characters that `p` takes from the start of `s`, or `None`
/// where it does not match. Matching is greedy and never goes back on a
/// choice it has made.
pub open spec fn match_len(p: PatternModel, s: Seq<char>) -> Option<nat>
    decreases p, 0nat, 0nat,
{
    match p {
        PatternModel::Reference(_, _) => None,
        PatternModel::Literal(lit) => literal_match(lit, s),
        PatternModel::Class(deny, list) => class_match(deny, list, s),
        PatternModel::Quantifier(min, max, what) => repeat_match(
            *what,
            s,
            min as nat,
            if max >= min {
                (max - min) as nat
            } else {
                0
            },
        ),
        PatternModel::Group(v) => group_match(v, s, 0),
        PatternModel::Or(v) => or_match(v, s, 0),
    }
}

/// `need` repetitions of `what` that must all match, then up to `more`
/// further ones, ending at the first that fails.
pub open spec fn repeat_match(what: PatternModel, s: Seq<char>, need: nat, more: nat) -> Option<
    nat,
>
    decreases what, 1nat, need + more,
{
    if need > 0 {
        match match_len(what, s) {
            None => None,
            Some(k) => match repeat_match(what, s.skip(k as int), (need - 1) as nat, more) {
                None => None,
                Some(r) => Some(k + r),
            },
        }
    } else if more > 0 {
        match match_len(what, s) {
            None => Some(0),
            Some(k) => match repeat_match(what, s.skip(k as int), 0, (more - 1) as nat) {
                None => Some(k),
                Some(r) => Some(k + r),
            },
        }
    } else {
        Some(0)
    }
}

/// The patterns of `v` from index `i` on, one after the other.
pub open spec fn group_match(v: Seq<PatternModel>, s: Seq<char>, i: nat) -> Option<nat>
    decreases v, 1nat, v.len() - i,
{
    if i >= v.len() {
        Some(0)
    } else {
        match match_len(v[i as int], s) {
            None => None,
            Some(k) => match group_match(v, s.skip(k as int), i + 1) {
                None => None,
                Some(r) => Some(k + r),
            },
        }
    }
}

/// The first of the patterns of `v` from index `i` on that matches.
pub open spec fn or_match(v: Seq<PatternModel>, s: Seq<char>, i: nat) -> Option<nat>
    decreases v, 1nat, v.len() - i,
{
    if i >= v.len() {
        None
    } else {
        match match_len(v[i as int], s) {
            Some(k) => Some(k),
            None => or_match(v, s, i + 1),
        }
    }
}

/// Whether `r` is the length in bytes of the prefix of `s` that a match
/// of `m` characters takes, or `None` for no match.
pub open spec fn is_span(r: Option<usize>, s: Seq<char>, m: Option<nat>) -> bool {
    match m {
        None => r is None,
        Some(k) => k <= s.len() && r == Some(utf8_len(s.take(k as int)) as usize) && utf8_len(
            s.take(k as int),
        ) <= usize::MAX,
    }
}

/// A match never takes more characters than the text has.
pub proof fn lemma_match_bound(p: PatternModel, s: Seq<char>)
    ensures
        match_len(p, s) matches Some(k) ==> k <= s.len(),
    decreases p, 0nat, 0nat,
{
    match p {
        PatternModel::Quantifier(min, max, what) => {
            lemma_repeat_bound(
                *what,
                s,
                min as nat,
                if max >= min {
                    (max - min) as nat
                } else {
                    0
                },
            );
        },
        PatternModel::Group(v) => {
            lemma_group_bound(v, s, 0);
        },
        PatternModel::Or(v) => {
            lemma_or_bound(v, s, 0);
        },
        _ => {},
    }
}

/// A run of repetitions never takes more characters than the text has.
pub proof fn lemma_repeat_bound(what: PatternModel, s: Seq<char>, need: nat, more: nat)
    ensures
        repeat_match(what, s, need, more) matches Some(k) ==> k <= s.len(),
    decreases what, 1nat, need + more,
{
    lemma_match_bound(what, s);
    if need > 0 {
        if let Some(k) = match_len(what, s) {
            lemma_repeat_bound(what, s.skip(k as int), (need - 1) as nat, more);
        }
    } else if more > 0 {
        if let Some(k) = match_len(what, s) {
            lemma_repeat_bound(what, s.skip(k as int), 0, (more - 1) as nat);
        }
    }
}

/// A sequence of patterns never takes more characters than the text has.
pub proof fn lemma_group_bound(v: Seq<PatternModel>, s: Seq<char>, i: nat)
    ensures
        group_match(v, s, i) matches Some(k) ==> k <= s.len(),
    decreases v, 1nat, v.len() - i,
{
    if i < v.len() {
        lemma_match_bound(v[i as int], s);
        if let Some(k) = match_len(v[i as int], s) {
            lemma_group_bound(v, s.skip(k as int), i + 1);
        }
    }
}

/// An alternation never takes more characters than the text has.
pub proof fn lemma_or_bound(v: Seq<PatternModel>, s: Seq<char>, i: nat)
    ensures
        or_match(v, s, i) matches Some(k) ==> k <= s.len(),
    decreases v, 1nat, v.len() - i,
{
    if i < v.len() {
        lemma_match_bound(v[i as int], s);
        lemma_or_bound(v, s, i + 1);
    }
}

/// Once a repetition matches the empty prefix, every further repetition
/// does too, so the whole run takes nothing more.
pub proof fn lemma_repeat_stall(what: PatternModel, s: Seq<char>, need: nat, more: nat)
    requires
        match_len(what, s) == Some(0nat),
    ensures
        repeat_match(what, s, need, more) == Some(0nat),
    decreases need + more,
{
    assert(s.skip(0) =~= s);
    if need > 0 {
        lemma_repeat_stall(what, s, (need - 1) as nat, more);
    } else if more > 0 {
        lemma_repeat_stall(what, s, 0, (more - 1) as nat);
    }
}

/// The smaller of two numbers.
pub open spec fn least(a: nat, b: nat) -> nat {
    if a <= b {
        a
    } else {
        b
    }
}

/// Whether `what` takes exactly `w` characters at each of the first `k`
/// multiples of `w` in `s`, and `s` ends there.
pub open spec fn steps_evenly(what: PatternModel, s: Seq<char>, w: nat, k: nat) -> bool {
    &&& w > 0
    &&& s.len() == k * w
    &&& forall|j: nat| j < k ==> match_len(what, #[trigger] s.skip((j * w) as int)) == Some(w)
    &&& match_len(what, s.skip((k * w) as int)) is None
}

/// A run of repetitions over a text of `k` evenly sized pieces takes as
/// many pieces as it may: none where fewer than `need` are there, else the
/// first `need + more` of them at most.
pub proof fn lemma_repeat_counts(
    what: PatternModel,
    s: Seq<char>,
    w: nat,
    k: nat,
    need: nat,
    more: nat,
)
    requires
        steps_evenly(what, s, w, k),
    ensures
        repeat_match(what, s, need, more) == (if k < need {
            None::<nat>
        } else {
            Some(least(k, need + more) * w)
        }),
    decreases need + more,
{
    assert(s.skip(0) =~= s);
    assert(0nat * w == 0) by (nonlinear_arith);
    if need + more == 0 {
        assert(least(k, 0) * w == 0) by (nonlinear_arith);
    } else if k == 0 {
        assert(match_len(what, s.skip((k * w) as int)) is None);
        assert(least(0, need + more) * w == 0) by (nonlinear_arith);
    } else {
        assert(match_len(what, s.skip((0nat * w) as int)) == Some(w));
        let rest = s.skip(w as int);
        let j = (k - 1) as nat;
        assert(k * w == j * w + w) by (nonlinear_arith)
            requires
                k == j + 1,
        ;
        assert(steps_evenly(what, rest, w, j)) by {
            assert forall|i: nat| i < j implies match_len(
                what,
                #[trigger] rest.skip((i * w) as int),
            ) == Some(w) by {
                assert((i + 1) * w == i * w + w) by (nonlinear_arith);
                assert((i + 1) * w <= k * w && 0 <= i * w) by (nonlinear_arith)
                    requires
                        i + 1 <= k,
                ;
                assert(rest.skip((i * w) as int) =~= s.skip(((i + 1) * w) as int));
            }
            assert(rest.skip((j * w) as int) =~= s.skip((k * w) as int));
        }
        if need > 0 {
            lemma_repeat_counts(what, rest, w, j, (need - 1) as nat, more);
            if j >= need - 1 {
                assert(w + least(j, (need - 1 + more) as nat) * w == least(k, need + more) * w)
                    by (nonlinear_arith)
                    requires
                        k == j + 1,
                        need >= 1,
                ;
            }
        } else {
            lemma_repeat_counts(what, rest, w, j, 0, (more - 1) as nat);
            assert(w + least(j, (more - 1) as nat) * w == least(k, more) * w)
                by (nonlinear_arith)
                requires
                    k == j + 1,
                    more >= 1,
            ;
        }
    }
}

/// A quantifier with bounds in order, over a text that its operand cuts
/// into `k` pieces of `w` characters each: it fails where `k < min`, else
/// it takes `k` or `max` pieces, whichever is less. So what it takes is
/// a multiple of `w`, and it takes the whole text if and only if
/// `min <= k <= max`.
pub proof fn lemma_quantifier_counts(
    what: PatternModel,
    s: Seq<char>,
    w: nat,
    k: nat,
    min: usize,
    max: usize,
)
    requires
        min <= max,
        steps_evenly(what, s, w, k),
    ensures
        match_len(PatternModel::Quantifier(min, max, Box::new(what)), s) == (if k < min {
            None::<nat>
        } else {
            Some(least(k, max as nat) * w)
        }),
        match_len(PatternModel::Quantifier(min, max, Box::new(what)), s) == Some(s.len()) <==> min
            <= k <= max,
{
    lemma_repeat_counts(what, s, w, k, min as nat, (max - min) as nat);
    if k >= min {
        assert(least(k, max as nat) * w == k * w <==> k <= max) by (nonlinear_arith)
            requires
                w > 0,
        ;
    }
}

/// A class that denies nothing takes any one character, and nothing at
/// the end of the text; a class that admits nothing never matches.
pub proof fn lemma_empty_class(s: Seq<char>)
    ensures
        class_match(false, Seq::empty(), s) is None,
        class_match(true, Seq::empty(), s) == Some(least(1, s.len())),
{
}

/// The class of one range admits exactly the characters from `lo` to
/// `hi`; the class that denies that range takes exactly the others, and
/// the empty prefix at the end of the text.
pub proof fn lemma_range_class(lo: char, hi: char, s: Seq<char>)
    ensures
        class_match(false, seq![ClassItem::Range(lo, hi)], s) == (if s.len() > 0 && lo <= s[0]
            && s[0] <= hi {
            Some(1nat)
        } else {
            None::<nat>
        }),
        class_match(true, seq![ClassItem::Range(lo, hi)], s) == (if s.len() == 0 {
            Some(0nat)
        } else if lo <= s[0] && s[0] <= hi {
            None::<nat>
        } else {
            Some(1nat)
        }),
{
    let list = seq![ClassItem::Range(lo, hi)];
    if s.len() > 0 {
        if lo <= s[0] && s[0] <= hi {
            assert(item_holds(list[0], s[0]));
        }
    }
}

/// An alternation takes what its first matching alternative takes, and
/// fails only where every alternative fails.
pub proof fn lemma_or_first(v: Seq<PatternModel>, s: Seq<char>, i: nat)
    requires
        i <= v.len(),
    ensures
        match or_match(v, s, i) {
            Some(k) => exists|j: int|
                i <= j < v.len() && match_len(#[trigger] v[j], s) == Some(k) && forall|h: int|
                    i <= h < j ==> match_len(#[trigger] v[h], s) is None,
            None => forall|j: int| i <= j < v.len() ==> match_len(#[trigger] v[j], s) is None,
        },
    decreases v.len() - i,
{
    if i < v.len() {
        lemma_or_first(v, s, i + 1);
        match match_len(v[i as int], s) {
            Some(k) => {
                assert(match_len(v[i as int], s) == Some(k));
            },
            None => {
                if let Some(k) = or_match(v, s, i + 1) {
                    let j = choose|j: int|
                        i + 1 <= j < v.len() && match_len(#[trigger] v[j], s) == Some(k)
                            && forall|h: int|
                            i + 1 <= h < j ==> match_len(#[trigger] v[h], s) is None;
                    assert forall|h: int| i <= h < j implies match_len(#[trigger] v[h], s)
                        is None by {
                        if h > i {
                        }
                    }
                }
            },
        }
    }
}

/// Something that can be matched against the start of a text.
pub trait Consume {
    /// Number of characters of `s` that `self` takes, if it matches.
    spec fn matched(&self, s: Seq<char>) -> Option<nat>;

    /// Length in bytes of the prefix of `from` that `self` matches, or
    /// `None` where it does not match.
    fn consume(&self, from: &str) -> (r: Option<usize>)
        ensures
            is_span(r, from@, self.matched(from@)),
    ;
}

impl Consume for char {
    open spec fn matched(&self, s: Seq<char>) -> Option<nat> {
        item_match(ClassItem::Char(*self), s)
    }

    fn consume(&self, from: &str) -> (r: Option<usize>) {
        proof {
            lemma_utf8_take_first(from@);
        }
        match first_char(from) {
            Some(c) if c == *self => Some(len_utf8(c)),
            _ => None,
        }
    }
}

impl Consume for str {
    open spec fn matched(&self, s: Seq<char>) -> Option<nat> {
        literal_match(self@, s)
    }

    fn consume(&self, from: &str) -> (r: Option<usize>) {
        if starts_with(from, self) {
            assert(from@.take(self@.len() as int) =~= self@);
            Some(byte_len(self))
        } else {
            None
        }
    }
}

impl Consume for ClassItem {
    open spec fn matched(&self, s: Seq<char>) -> Option<nat> {
        item_match(*self, s)
    }

    fn consume(&self, from: &str) -> (r: Option<usize>) {
        proof {
            lemma_utf8_take_first(from@);
        }
        match *self {
            ClassItem::Char(ch) => ch.consume(from),
            ClassItem::Range(lo, hi) => {
                match first_char(from) {
                    Some(c) if lo <= c && c <= hi => Some(len_utf8(c)),
                    _ => None,
                }
            },
        }
    }
}

impl Consume for Class {
    open spec fn matched(&self, s: Seq<char>) -> Option<nat> {
        class_match(self.deny, self.list@, s)
    }

    fn consume(&self, from: &str) -> (r: Option<usize>) {
        proof {
            lemma_utf8_take_first(from@);
        }
        let mut i: usize = 0;
        while i < self.list.len()
            invariant
                0 <= i <= self.list.len(),
                forall|j: int| 0 <= j < i ==> item_match(#[trigger] self.list@[j], from@) is None,
                utf8_len(from@.take(0)) == 0,
                from@.len() > 0 ==> utf8_len(from@.take(1)) == char_width(from@[0]),
            decreases self.list.len() - i,
        {
            if let Some(size) = self.list[i].consume(from) {
                assert(item_holds(self.list@[i as int], from@[0]));
                return if self.deny {
                    None
                } else {
                    Some(size)
                };
            }
            i += 1;
        }
        if self.deny {
            match first_char(from) {
                Some(c) => Some(len_utf8(c)),
                None => Some(0),
            }
        } else {
            None
        }
    }
}

impl Consume for Quantifier {
    open spec fn matched(&self, s: Seq<char>) -> Option<nat> {
        match_len(PatternModel::Quantifier(self.min, self.max, Box::new((*self.what.0)@)), s)
    }

    fn consume(&self, from: &str) -> (r: Option<usize>)
        decreases *self,
    {
        let what: &Pattern = &*self.what.0;
        let ghost model = what@;
        let ghost extra: nat = if self.max >= self.min {
            (self.max - self.min) as nat
        } else {
            0
        };
        let len = byte_len(from);
        let mut total: usize = 0;
        let ghost mut k: nat = 0;
        proof {
            lemma_utf8_take_first(from@);
            assert(from@.skip(0) =~= from@);
        }
        assert(self.matched(from@) == repeat_match(model, from@, self.min as nat, extra));
        let mut i: usize = 0;
        while i < self.min
            invariant
                0 <= i <= self.min,
                len == utf8_len(from@),
                self.matched(from@) == repeat_match(model, from@, self.min as nat, extra),
                k <= from@.len(),
                total == utf8_len(from@.take(k as int)),
                model == (*self.what.0)@,
                what == &*self.what.0,
                repeat_match(model, from@, self.min as nat, extra) == (match repeat_match(
                    model,
                    from@.skip(k as int),
                    (self.min - i) as nat,
                    extra,
                ) {
                    None => None::<nat>,
                    Some(r) => Some(k + r),
                }),
            decreases self.min - i,
        {
            let tail = skip_chars(from, total, Ghost(k as int));
            match what.consume(tail) {
                None => {
                    return None;
                },
                Some(size) => {
                    let ghost j = match_len(model, tail@)->0;
                    proof {
                        lemma_match_bound(model, tail@);
                        lemma_utf8_take_add(from@, k as int, j as int);
                    }
                    if size == 0 {
                        proof {
                            lemma_utf8_take_monotonic(tail@, 0, j as int);
                            lemma_utf8_take_first(tail@);
                            assert(j == 0);
                            lemma_repeat_stall(model, tail@, (self.min - i) as nat, extra);
                        }
                        return Some(total);
                    }
                    total = total + size;
                    proof {
                        k = k + j;
                    }
                },
            }
            i += 1;
        }
        let mut i: usize = self.min;
        while i < self.max
            invariant
                self.min <= i,
                len == utf8_len(from@),
                self.matched(from@) == repeat_match(model, from@, self.min as nat, extra),
                i <= self.max || self.max < self.min,
                k <= from@.len(),
                total == utf8_len(from@.take(k as int)),
                model == (*self.what.0)@,
                what == &*self.what.0,
                repeat_match(model, from@, self.min as nat, extra) == (match repeat_match(
                    model,
                    from@.skip(k as int),
                    0,
                    if self.max >= i { (self.max - i) as nat } else { 0 },
                ) {
                    None => None::<nat>,
                    Some(r) => Some(k + r),
                }),
            decreases self.max - i,
        {
            let tail = skip_chars(from, total, Ghost(k as int));
            match what.consume(tail) {
                None => {
                    return Some(total);
                },
                Some(size) => {
                    let ghost j = match_len(model, tail@)->0;
                    proof {
                        lemma_match_bound(model, tail@);
                        lemma_utf8_take_add(from@, k as int, j as int);
                        lemma_repeat_bound(model, tail@.skip(j as int), 0, (self.max - i - 1) as nat);
                    }
                    if size == 0 {
                        proof {
                            lemma_utf8_take_monotonic(tail@, 0, j as int);
                            lemma_utf8_take_first(tail@);
                            assert(j == 0);
                            lemma_repeat_stall(model, tail@, 0, (self.max - i) as nat);
                        }
                        return Some(total);
                    }
                    total = total + size;
                    proof {
                        k = k + j;
                    }
                },
            }
            i += 1;
        }
        Some(total)
    }
}

impl Consume for [Pattern] {
    open spec fn matched(&self, s: Seq<char>) -> Option<nat> {
        group_match(views(self@), s, 0)
    }

    fn consume(&self, from: &str) -> (r: Option<usize>)
        decreases self@,
    {
        let ghost v = views(self@);
        let len = byte_len(from);
        let mut total: usize = 0;
        let ghost mut k: nat = 0;
        proof {
            lemma_utf8_take_first(from@);
            assert(from@.skip(0) =~= from@);
            lemma_views(self@);
        }
        let mut i: usize = 0;
        while i < self.len()
            invariant
                0 <= i <= self.len(),
                len == utf8_len(from@),
                k <= from@.len(),
                total == utf8_len(from@.take(k as int)),
                v == views(self@),
                v.len() == self@.len(),
                forall|j: int| 0 <= j < self@.len() ==> v[j] == (#[trigger] self@[j])@,
                group_match(v, from@, 0) == (match group_match(v, from@.skip(k as int), i as nat) {
                    None => None::<nat>,
                    Some(r) => Some(k + r),
                }),
            decreases self.len() - i,
        {
            let tail = skip_chars(from, total, Ghost(k as int));
            match self[i].consume(tail) {
                None => {
                    return None;
                },
                Some(size) => {
                    let ghost j = match_len(v[i as int], tail@)->0;
                    proof {
                        lemma_match_bound(v[i as int], tail@);
                        lemma_utf8_take_add(from@, k as int, j as int);
                        lemma_group_bound(v, tail@.skip(j as int), (i + 1) as nat);
                        k = k + j;
                    }
                    total = total + size;
                },
            }
            i += 1;
        }
        Some(total)
    }
}

/// The first of `list` that matches `from`, in order.
fn consume_any(list: &[Pattern], from: &str) -> (r: Option<usize>)
    ensures
        is_span(r, from@, or_match(views(list@), from@, 0)),
    decreases list@,
{
    let ghost v = views(list@);
    proof {
        lemma_views(list@);
    }
    let mut i: usize = 0;
    while i < list.len()
        invariant
            0 <= i <= list.len(),
            v == views(list@),
            v.len() == list@.len(),
            forall|j: int| 0 <= j < list@.len() ==> v[j] == (#[trigger] list@[j])@,
            or_match(v, from@, 0) == or_match(v, from@, i as nat),
        decreases list.len() - i,
    {
        if let Some(size) = list[i].consume(from) {
            return Some(size);
        }
        i += 1;
    }
    None
}

impl Consume for Pattern {
    open spec fn matched(&self, s: Seq<char>) -> Option<nat> {
        match_len(self@, s)
    }

    fn consume(&self, from: &str) -> (r: Option<usize>)
        decreases *self,
    {
        match self {
            Pattern::Reference(_, _) => None,
            Pattern::Literal(lit) => lit.as_str().consume(from),
            Pattern::Class(class) => class.consume(from),
            Pattern::Quantifier(quantifier) => quantifier.consume(from),
            Pattern::Group(group) => group.as_slice().consume(from),
            Pattern::Or(list) => consume_any(list.as_slice(), from),
        }
    }
}

} // verus!

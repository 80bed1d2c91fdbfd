//! A rule set and the tokenizer that runs it over a text.
use crate::error::{Error, ErrorKind, ErrorModel, KindModel};
use crate::iter::{read_while, skip_while, Chars, Cursor, Iter, Offset};
use crate::lex::consume::{lemma_match_bound, match_len, Consume};
use crate::pattern::parse::{body_from, lemma_body_from, moved, parse, CharSet};
use crate::pattern::pattern::{Pattern, PatternModel};
use crate::store::{id_of, interned, lemma_grows, lemma_unchanged, Store};
use crate::text::{first_char, skip_first};
use crate::text::{
    byte_len, lemma_utf8_take_add, lemma_utf8_take_first, lemma_utf8_take_monotonic, skip_chars,
    take_chars, utf8_len,
};
use vstd::prelude::*;

verus! {

/// A named pattern: `id` is the interned name of the rule.
#[derive(Debug, PartialEq, Eq)]
pub struct Rule {
    pub id: usize,
    pub pat: Pattern,
}

impl Rule {
    pub fn new(id: usize, pat: Pattern) -> (r: Self)
        ensures
            r.id == id,
            r.pat == pat,
    {
        Self { id, pat }
    }
}

/// The mathematical value of a [`Token`]: the id of the rule that made it
/// and the characters it covers.
pub struct TokenModel {
    pub kind: usize,
    pub value: Seq<char>,
}

/// A piece of the input, tagged with the rule that matched it.
#[derive(Debug, Clone, Copy, PartialEq, Eq)]
pub struct Token<'a> {
    kind: usize,
    value: &'a str,
}

impl<'a> View for Token<'a> {
    type V = TokenModel;

    closed spec fn view(&self) -> TokenModel {
        TokenModel { kind: self.kind, value: self.value@ }
    }
}

impl<'a> Token<'a> {
    fn new(kind: usize, value: &'a str) -> (r: Self)
        ensures
            r@ == (TokenModel { kind, value: value@ }),
    {
        Self { kind, value }
    }

    /// Id of the rule that matched.
    pub fn kind(&self) -> (k: usize)
        ensures
            k == self@.kind,
    {
        self.kind
    }

    /// The matched slice of the input.
    pub fn value(&self) -> (v: &str)
        ensures
            v@ == self@.value,
    {
        self.value
    }
}

/// An ordered set of rules. Earlier rules win ties.
#[derive(Debug, PartialEq, Eq)]
pub struct Lexer(pub Vec<Rule>);

/// The winner among the first `n` rules at the start of `s`, as the index
/// of the rule and the number of characters it takes: the first rule that
/// matches, whatever it takes, unless a later rule takes strictly more.
/// A match of the empty prefix counts: it wins where nothing longer
/// matches.
pub open spec fn best(rules: Seq<Rule>, s: Seq<char>, n: nat) -> Option<(int, nat)>
    decreases n,
{
    if n == 0 {
        None
    } else {
        let prev = best(rules, s, (n - 1) as nat);
        match (prev, match_len(rules[n - 1].pat@, s)) {
            (None, Some(l)) => Some((n - 1, l)),
            (Some(w), Some(l)) => if l > w.1 {
                Some((n - 1, l))
            } else {
                prev
            },
            (_, None) => prev,
        }
    }
}

/// The token that [`best`] yields over all the rules, if any.
pub open spec fn first_token(rules: Seq<Rule>, s: Seq<char>) -> Option<TokenModel> {
    match best(rules, s, rules.len()) {
        None => None,
        Some(w) => Some(TokenModel { kind: rules[w.0].id, value: s.take(w.1 as int) }),
    }
}

/// The tokens of `text` from character `pos` on, or the character position
/// at which the text cannot be cut further: where no rule matches, or where
/// the winner takes nothing, since a token of no characters would leave
/// the cut where it is for ever.
pub open spec fn tokens_from(rules: Seq<Rule>, text: Seq<char>, pos: nat) -> Result<
    Seq<TokenModel>,
    nat,
>
    decreases text.len() - pos,
{
    if pos >= text.len() {
        Ok(Seq::empty())
    } else {
        match first_token(rules, text.skip(pos as int)) {
            None => Err(pos),
            Some(t) => if t.value.len() == 0 || pos + t.value.len() > text.len() {
                Err(pos)
            } else {
                match tokens_from(rules, text, pos + t.value.len()) {
                    Err(p) => Err(p),
                    Ok(rest) => Ok(seq![t] + rest),
                }
            },
        }
    }
}

/// The models of the tokens in `v`.
pub open spec fn token_models(v: Seq<Token<'_>>) -> Seq<TokenModel> {
    Seq::new(v.len(), |i: int| v[i]@)
}

/// [`best`] picks a match inside the text, and nothing longer exists among
/// the rules it looked at, nor anything as long before it. It picks none
/// only where none of those rules matches.
pub proof fn lemma_best(rules: Seq<Rule>, s: Seq<char>, n: nat)
    requires
        n <= rules.len(),
    ensures
        match best(rules, s, n) {
            Some((j, len)) => {
                &&& 0 <= j < n
                &&& 0 <= len <= s.len()
                &&& match_len(rules[j].pat@, s) == Some(len)
                &&& forall|i: int|
                    0 <= i < n ==> (match_len(#[trigger] rules[i].pat@, s) matches Some(l) ==> l
                        <= len)
                &&& forall|i: int|
                    0 <= i < j ==> (match_len(#[trigger] rules[i].pat@, s) matches Some(l) ==> l
                        < len)
            },
            None => forall|i: int| 0 <= i < n ==> match_len(#[trigger] rules[i].pat@, s) is None,
        },
    decreases n,
{
    if n > 0 {
        lemma_best(rules, s, (n - 1) as nat);
        lemma_match_bound(rules[n - 1].pat@, s);
    }
}

impl Lexer {
    /// The token at the start of `from`: the longest match among the rules,
    /// the earliest rule winning a tie. A rule that matches the empty
    /// prefix can win, with an empty token. `None` only where no rule
    /// matches at all.
    pub fn lex_once<'a>(&self, from: &'a str) -> (r: Option<Token<'a>>)
        ensures
            match first_token(self.0@, from@) {
                None => r is None,
                Some(t) => r matches Some(tok) && tok@ == t,
            },
    {
        let len = byte_len(from);
        let mut token: Option<Token<'a>> = None;
        let mut previous: usize = 0;
        let ghost mut chars: nat = 0;
        proof {
            lemma_utf8_take_first(from@);
        }
        let mut i: usize = 0;
        while i < self.0.len()
            invariant
                0 <= i <= self.0.len(),
                len == utf8_len(from@),
                chars <= from@.len(),
                previous == utf8_len(from@.take(chars as int)),
                match best(self.0@, from@, i as nat) {
                    None => token is None && chars == 0,
                    Some(w) => token matches Some(tok) && chars == w.1 && tok@ == (TokenModel {
                        kind: self.0@[w.0].id,
                        value: from@.take(w.1 as int),
                    }),
                },
            decreases self.0.len() - i,
        {
            let rule = &self.0[i];
            proof {
                lemma_best(self.0@, from@, i as nat);
            }
            if let Some(size) = rule.pat.consume(from) {
                let ghost l = match_len(rule.pat@, from@)->0;
                proof {
                    if l <= chars {
                        lemma_utf8_take_monotonic(from@, l as int, chars as int);
                    } else {
                        lemma_utf8_take_monotonic(from@, chars as int, l as int);
                    }
                }
                if token.is_none() || previous < size {
                    token = Some(Token::new(rule.id, take_chars(from, size, Ghost(l as int))));
                    previous = size;
                    proof {
                        chars = l;
                    }
                }
            }
            i += 1;
        }
        token
    }

    /// Cuts `from` into tokens, each the result of [`Lexer::lex_once`] at
    /// the point where the one before ended. Fails with the byte offset at
    /// which no rule matches. It fails there too where the winner is an
    /// empty token: every token of a cut moves forward, so the cut ends.
    pub fn lex<'a>(&self, from: &'a str) -> (r: Result<Vec<Token<'a>>, usize>)
        ensures
            match tokens_from(self.0@, from@, 0) {
                Ok(toks) => r matches Ok(v) && token_models(v@) == toks,
                Err(pos) => pos <= from@.len() && r == Err::<Vec<Token<'a>>, usize>(
                    utf8_len(from@.take(pos as int)) as usize,
                ),
            },
    {
        let len = byte_len(from);
        let mut tokens: Vec<Token<'a>> = Vec::new();
        let mut offset: usize = 0;
        let ghost mut pos: nat = 0;
        proof {
            lemma_utf8_take_first(from@);
            lemma_tokens_bound(self.0@, from@, 0);
            assert(token_models(tokens@) =~= Seq::<TokenModel>::empty());
        }
        while offset < len
            invariant
                len == utf8_len(from@),
                pos <= from@.len(),
                offset == utf8_len(from@.take(pos as int)),
                offset <= len,
                tokens_from(self.0@, from@, 0) == (match tokens_from(self.0@, from@, pos) {
                    Ok(rest) => Ok::<Seq<TokenModel>, nat>(token_models(tokens@) + rest),
                    Err(p) => Err(p),
                }),
                tokens_from(self.0@, from@, pos) matches Err(p) ==> p <= from@.len(),
            decreases len - offset,
        {
            let tail = skip_chars(from, offset, Ghost(pos as int));
            proof {
                lemma_best(self.0@, tail@, self.0@.len());
                if pos >= from@.len() {
                    assert(from@.take(pos as int) =~= from@);
                }
            }
            let token = match self.lex_once(tail) {
                None => {
                    return Err(offset);
                },
                Some(token) => token,
            };
            let size = byte_len(token.value());
            proof {
                crate::text::lemma_utf8_len_bounds(token@.value);
            }
            if size == 0 {
                return Err(offset);
            }
            proof {
                let l = token@.value.len();
                assert(tail@.take(l as int).len() == l);
                lemma_utf8_take_add(from@, pos as int, l as int);
                lemma_utf8_take_monotonic(tail@, 0, l as int);
                lemma_tokens_bound(self.0@, from@, pos + l);
                assert(token_models(tokens@.push(token)) =~= token_models(tokens@).push(token@));
                match tokens_from(self.0@, from@, pos + l) {
                    Ok(rest) => {
                        assert(token_models(tokens@) + (seq![token@] + rest) =~= token_models(
                            tokens@,
                        ).push(token@) + rest);
                    },
                    Err(p) => {},
                }
                pos = pos + l;
            }
            offset = offset + size;
            tokens.push(token);
        }
        proof {
            if pos < from@.len() {
                lemma_utf8_take_monotonic(from@, pos as int, from@.len() as int);
                assert(from@.take(from@.len() as int) =~= from@);
            }
            assert(token_models(tokens@) + Seq::<TokenModel>::empty() =~= token_models(tokens@));
        }
        Ok(tokens)
    }
}

/// A failure position lies inside the text.
pub proof fn lemma_tokens_bound(rules: Seq<Rule>, text: Seq<char>, pos: nat)
    requires
        pos <= text.len(),
    ensures
        tokens_from(rules, text, pos) matches Err(p) ==> pos <= p <= text.len(),
    decreases text.len() - pos,
{
    if pos < text.len() {
        let s = text.skip(pos as int);
        lemma_best(rules, s, rules.len());
        if let Some(t) = first_token(rules, s) {
            if t.value.len() > 0 && pos + t.value.len() <= text.len() {
                lemma_tokens_bound(rules, text, pos + t.value.len());
            }
        }
    }
}

/// The characters of the tokens of `toks`, one after the other.
pub open spec fn joined(toks: Seq<TokenModel>) -> Seq<char>
    decreases toks.len(),
{
    if toks.len() == 0 {
        Seq::empty()
    } else {
        toks[0].value + joined(toks.drop_first())
    }
}

/// The tokens of a text lie side by side and cover it to its end, and
/// none of them is empty.
pub proof fn lemma_tokens_cover(rules: Seq<Rule>, text: Seq<char>, pos: nat)
    requires
        pos <= text.len(),
    ensures
        tokens_from(rules, text, pos) matches Ok(toks) ==> joined(toks) == text.skip(pos as int)
            && forall|i: int| 0 <= i < toks.len() ==> (#[trigger] toks[i]).value.len() > 0,
    decreases text.len() - pos,
{
    if pos < text.len() {
        let s = text.skip(pos as int);
        lemma_best(rules, s, rules.len());
        if let Some(t) = first_token(rules, s) {
            let l = t.value.len();
            if l > 0 && pos + l <= text.len() {
                lemma_tokens_cover(rules, text, pos + l);
                if let Ok(rest) = tokens_from(rules, text, pos + l) {
                    let toks = seq![t] + rest;
                    assert(toks.drop_first() =~= rest);
                    assert(s.take(l as int) + text.skip((pos + l) as int) =~= s);
                }
            }
        }
    } else {
        assert(text.skip(pos as int) =~= Seq::<char>::empty());
    }
}

/// The rules of `v` as pairs of an id and the model of a pattern.
pub open spec fn rules_view(v: Seq<Rule>) -> Seq<(usize, PatternModel)> {
    Seq::new(v.len(), |i: int| (v[i].id, v[i].pat@))
}

/// The rules of a rule file from the cursor on, `rules` being those read
/// so far: blank space and `#` comments up to the end of their line are
/// passed over; a rule is a name, a `:` and a body that ends with `;`.
pub open spec fn rules_from(
    c: Cursor,
    rules: Seq<(usize, PatternModel)>,
    names: Seq<Seq<char>>,
) -> Result<(Seq<(usize, PatternModel)>, Seq<Seq<char>>), ErrorModel>
    decreases c.text.len() - c.pos,
    when c.wf()
{
    let c0 = c.skip_while(CharSet::Whitespace);
    if c0.done() {
        Ok((rules, names))
    } else if c0.ch() == '#' {
        let c1 = c0.next().skip_while(CharSet::Line);
        if moved(c, c1) {
            rules_from(c1, rules, names)
        } else {
            Err(KindModel::EmptyName.at(c0.at))
        }
    } else if c0.ch() == ':' {
        Err(KindModel::EmptyName.at(c0.at))
    } else {
        let name = c0.run_text(CharSet::Head);
        let last = c0.run_last(CharSet::Head);
        let c1 = c0.skip_while(CharSet::Head).skip_while(CharSet::Whitespace);
        if name.contains('@') {
            Err(KindModel::InvalidRuleHead(name).at(c0.at))
        } else if c1.done() {
            Err(KindModel::Expected(':').at(Offset(last.at.0, (last.at.1 + 1) as usize)))
        } else if c1.ch() != ':' {
            Err(KindModel::Expected(':').at(c1.at))
        } else {
            match body_from(c1.next(), Seq::empty(), interned(names, name)) {
                Err(e) => Err(e),
                Ok((items, after, named)) => if moved(c, after) {
                    rules_from(
                        after,
                        rules.push((id_of(names, name) as usize, PatternModel::Group(items))),
                        named,
                    )
                } else {
                    Err(KindModel::EmptyName.at(c0.at))
                },
            }
        }
    }
}

/// Whether `c` occurs in `s`.
fn has_char(s: &str, c: char) -> (r: bool)
    ensures
        r == s@.contains(c),
{
    let mut rest = s;
    let ghost mut k: int = 0;
    loop
        invariant
            0 <= k <= s@.len(),
            rest@ == s@.skip(k),
            forall|j: int| 0 <= j < k ==> s@[j] != c,
        decreases s@.len() - k,
    {
        match first_char(rest) {
            None => {
                return false;
            },
            Some(ch) => {
                if ch == c {
                    assert(s@[k] == c);
                    return true;
                }
                rest = skip_first(rest);
                proof {
                    assert(s@.skip(k).drop_first() =~= s@.skip(k + 1));
                    k = k + 1;
                }
            },
        }
    }
}

impl Lexer {
    /// Parses a rule file into its rules, in the order in which they stand.
    /// The names of the rules, and the names that their bodies refer to,
    /// are interned in `store`.
    pub fn parse<'a>(from: &'a str, store: &mut Store<'a>) -> (r: Result<Lexer, Error<'a>>)
        ensures
            match rules_from(Cursor::start(from@), Seq::empty(), old(store)@) {
                Ok((rules, names)) => r matches Ok(lexer) && rules_view(lexer.0@) == rules
                    && final(store)@ == names,
                Err(e) => r matches Err(x) && x@ == e,
            },
            r matches Ok(lexer) ==> forall|i: int|
                0 <= i < lexer.0@.len() ==> (#[trigger] lexer.0@[i]).pat@.wf(),
            old(store)@.is_prefix_of(final(store)@),
    {
        proof {
            lemma_unchanged(store@);
        }
        let mut iter = Iter::new(from);
        let ghost start = iter.cursor();
        let mut rules: Vec<Rule> = Vec::new();
        proof {
            assert(rules_view(rules@) =~= Seq::<(usize, PatternModel)>::empty());
        }
        loop
            invariant
                start == Cursor::start(from@),
                iter.cursor().wf(),
                forall|i: int| 0 <= i < rules@.len() ==> (#[trigger] rules@[i]).pat@.wf(),
                old(store)@.is_prefix_of(store@),
                rules_from(start, Seq::empty(), old(store)@) == rules_from(
                    iter.cursor(),
                    rules_view(rules@),
                    store@,
                ),
            decreases iter.cursor().text.len() - iter.cursor().pos,
        {
            let ghost c = iter.cursor();
            let ghost names = store@;
            skip_while(&mut iter, CharSet::Whitespace);
            let ghost c0 = iter.cursor();
            proof {
                c.lemma_skip_while(CharSet::Whitespace);
                if !c0.done() {
                    c0.lemma_next();
                    c0.lemma_run_last(CharSet::Head);
                    c0.run_last(CharSet::Head).lemma_next();
                    c0.next().lemma_skip_while(CharSet::Line);
                    c0.lemma_skip_while(CharSet::Head);
                    c0.skip_while(CharSet::Head).lemma_skip_while(CharSet::Whitespace);
                }
            }
            match iter.peek() {
                None => {
                    return Ok(Lexer(rules));
                },
                Some((_, ch)) => {
                    if ch == '#' {
                        iter.next();
                        skip_while(&mut iter, CharSet::Line);
                        continue ;
                    }
                },
            }
            let (begin, end, name) = match read_while(&mut iter, CharSet::Head) {
                Some(found) => found,
                None => {
                    return Err(ErrorKind::EmptyName.at(iter.offset()));
                },
            };
            if has_char(name, '@') {
                return Err(ErrorKind::InvalidRuleHead(name).at(begin));
            }
            let id = store.add(name);
            let ghost named = store@;
            proof {
                lemma_grows(old(store)@, names, named);
            }
            skip_while(&mut iter, CharSet::Whitespace);
            let ghost c1 = iter.cursor();
            match iter.next() {
                None => {
                    return Err(
                        ErrorKind::Expected(':').at(Offset::new(end.line(), end.column() + 1)),
                    );
                },
                Some((offset, ch)) => {
                    if ch != ':' {
                        return Err(ErrorKind::Expected(':').at(offset));
                    }
                },
            }
            proof {
                c1.lemma_next();
                lemma_body_from(c1.next(), Seq::empty(), store@);
            }
            let parsed = parse(&mut iter, store);
            proof {
                lemma_grows(old(store)@, named, store@);
            }
            let pattern = match parsed {
                Ok(p) => p,
                Err(e) => {
                    return Err(e);
                },
            };
            proof {
                assert(rules_view(rules@.push(Rule { id, pat: pattern })) =~= rules_view(
                    rules@,
                ).push((id, pattern@)));
            }
            rules.push(Rule::new(id, pattern));
        }
    }
}

} // verus!

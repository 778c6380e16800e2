//! Grammar symbols, synchronous rules and the rule indexes of a grammar.
use vstd::prelude::*;

use crate::features::{Features, kv_text};
use crate::text::{
    all_digits, char_pos, chars_of, decimal, digit_char, digits_value, find_char, find_pipe,
    int_value, is_ws, parse_i32, pipe_pos, push_decimal, split_once, split_once_at,
    split_whitespace, string_views, str_views, substring, trim, trimmed, trimmed_end,
    trimmed_start, unsigned_part, words,
};

verus! {

broadcast use vstd::string::group_string_axioms;

// ------------------------------------------------------------------ symbols

/// What a symbol stands for: a terminal word, or a nonterminal with its
/// category and the (0-based) link index it carries, `-1` when it has none.
pub enum SymbolView {
    T(Seq<char>),
    NT(Seq<char>, i32),
}

/// A grammar symbol: a terminal word or a nonterminal `[X]` / `[X,k]`.
#[derive(Debug)]
pub enum Symbol {
    T(String),
    NT { symbol: String, index: i32 },
}

impl View for Symbol {
    type V = SymbolView;

    open spec fn view(&self) -> SymbolView {
        match self {
            Symbol::T(w) => SymbolView::T(w@),
            Symbol::NT { symbol, index } => SymbolView::NT(symbol@, *index),
        }
    }
}

impl Clone for Symbol {
    fn clone(&self) -> (r: Self)
        ensures
            r == *self,
    {
        match self {
            Symbol::T(w) => Symbol::T(w.clone()),
            Symbol::NT { symbol, index } => Symbol::NT { symbol: symbol.clone(), index: *index },
        }
    }
}

impl PartialEq for Symbol {
    fn eq(&self, other: &Self) -> (r: bool) {
        match (self, other) {
            (Symbol::T(a), Symbol::T(b)) => *a == *b,
            (Symbol::NT { symbol: s1, index: i1 }, Symbol::NT { symbol: s2, index: i2 }) => {
                *s1 == *s2 && *i1 == *i2
            },
            _ => false,
        }
    }
}

impl vstd::std_specs::cmp::PartialEqSpecImpl for Symbol {
    open spec fn obeys_eq_spec() -> bool {
        true
    }

    open spec fn eq_spec(&self, other: &Symbol) -> bool {
        self@ == other@
    }
}

/// The views of a sequence of symbols.
pub open spec fn syms_view(v: Seq<Symbol>) -> Seq<SymbolView> {
    v.map_values(|s: Symbol| s@)
}

/// `t` is written `[...]`.
pub open spec fn bracketed(t: Seq<char>) -> bool {
    t.len() >= 2 && t[0] == '[' && t[t.len() - 1] == ']'
}

/// What is between the brackets of `[...]`.
pub open spec fn bracket_inner(t: Seq<char>) -> Seq<char> {
    t.subrange(1, t.len() - 1)
}

/// The symbol that the text `s` denotes: after trimming, `[X,k]` is the
/// nonterminal `X` with link index `k - 1`, `[X]` is `X` without index, and
/// anything else is a terminal.
pub open spec fn symbol_of(s: Seq<char>) -> SymbolView {
    let t = trimmed(s);
    if bracketed(t) {
        match split_once_at(bracket_inner(t), ',') {
            Some((a, b)) => SymbolView::NT(
                trimmed(a),
                (int_value(trimmed(b))->0 - 1) as i32,
            ),
            None => SymbolView::NT(trimmed(bracket_inner(t)), -1i32),
        }
    } else {
        SymbolView::T(t)
    }
}

/// The text `s` can be read as a symbol: the link index of a `[X,k]` is an
/// `i32` above `i32::MIN` (the reading subtracts one from it).
pub open spec fn symbol_text_ok(s: Seq<char>) -> bool {
    let t = trimmed(s);
    bracketed(t) ==> match split_once_at(bracket_inner(t), ',') {
        Some((a, b)) => int_value(trimmed(b)) matches Some(v) && v > i32::MIN,
        None => true,
    }
}

impl Symbol {
    /// Reads a symbol from its text.
    pub fn parse(s: &str) -> (r: Symbol)
        requires
            symbol_text_ok(s@),
        ensures
            r@ == symbol_of(s@),
    {
        let t = trim(s);
        let cs = chars_of(t);
        let n = cs.len();
        if n >= 2 && cs[0] == '[' && cs[n - 1] == ']' {
            let inner = t.substring_char(1, n - 1);
            match split_once(inner, ',') {
                Some((a, b)) => {
                    let v = parse_i32(trim(b));
                    match v {
                        Some(k) => Symbol::NT { symbol: String::from_str(trim(a)), index: k - 1 },
                        None => {
                            assert(false);
                            Symbol::NT { symbol: String::new(), index: -1 }
                        },
                    }
                },
                None => Symbol::NT { symbol: String::from_str(trim(inner)), index: -1 },
            }
        } else {
            Symbol::T(String::from_str(t))
        }
    }

    /// Checks whether `Symbol::parse` accepts `s`.
    pub fn text_ok(s: &str) -> (r: bool)
        ensures
            r == symbol_text_ok(s@),
    {
        let t = trim(s);
        let cs = chars_of(t);
        let n = cs.len();
        if n >= 2 && cs[0] == '[' && cs[n - 1] == ']' {
            let inner = t.substring_char(1, n - 1);
            match split_once(inner, ',') {
                Some((_a, b)) => match parse_i32(trim(b)) {
                    Some(k) => k > i32::MIN,
                    None => false,
                },
                None => true,
            }
        } else {
            true
        }
    }

    pub fn is_nt(&self) -> (r: bool)
        ensures
            r == (self@ is NT),
    {
        match self {
            Symbol::NT { .. } => true,
            Symbol::T(_) => false,
        }
    }

    pub fn is_t(&self) -> (r: bool)
        ensures
            r == (self@ is T),
    {
        match self {
            Symbol::T(_) => true,
            Symbol::NT { .. } => false,
        }
    }

    /// The word of a terminal.
    pub fn word(&self) -> (r: &str)
        requires
            self@ is T,
        ensures
            self@ == SymbolView::T(r@),
    {
        match self {
            Symbol::T(w) => w.as_str(),
            Symbol::NT { .. } => {
                assert(false);
                ""
            },
        }
    }

    /// The category of a nonterminal.
    pub fn nt_symbol(&self) -> (r: &str)
        requires
            self@ is NT,
        ensures
            self@->NT_0 == r@,
    {
        match self {
            Symbol::NT { symbol, .. } => symbol.as_str(),
            Symbol::T(_) => {
                assert(false);
                ""
            },
        }
    }

    /// The link index of a nonterminal.
    pub fn nt_index(&self) -> (r: i32)
        requires
            self@ is NT,
        ensures
            self@->NT_1 == r,
    {
        match self {
            Symbol::NT { index, .. } => *index,
            Symbol::T(_) => {
                assert(false);
                0
            },
        }
    }
}

} // verus!
verus! {

/// The text of a symbol: the word of a terminal, `[X,k]` for a nonterminal
/// with link index `k - 1`, and `[X]` for one without index.
pub open spec fn symbol_text(v: SymbolView) -> Seq<char> {
    match v {
        SymbolView::T(w) => w,
        SymbolView::NT(s, i) => if i >= 0 {
            seq!['['] + s + seq![','] + decimal((i + 1) as nat) + seq![']']
        } else {
            seq!['['] + s + seq![']']
        },
    }
}

/// A symbol whose text reads back as itself: a terminal without whitespace
/// that is not written in brackets, or a nonterminal whose category has no
/// whitespace or comma and whose link index is `-1` or below `i32::MAX`.
pub open spec fn canonical_symbol(v: SymbolView) -> bool {
    match v {
        SymbolView::T(w) => crate::text::no_ws(w) && !bracketed(w),
        SymbolView::NT(s, i) => crate::text::no_ws(s) && char_pos(s, ',') is None && (i == -1 || (
        0 <= i < i32::MAX)),
    }
}

/// Reading back the text of a canonical symbol gives the symbol.
pub proof fn lemma_symbol_text_roundtrip(v: SymbolView)
    requires
        canonical_symbol(v),
    ensures
        symbol_text_ok(symbol_text(v)),
        symbol_of(symbol_text(v)) == v,
{
    match v {
        SymbolView::T(w) => {
            if w.len() > 0 {
                assert(!is_ws(w[0]) && !is_ws(w[w.len() - 1]));
            }
            crate::text::lemma_trimmed_plain(w);
        },
        SymbolView::NT(s, i) => {
            let t = symbol_text(v);
            assert(t[0] == '[');
            assert(t[t.len() - 1] == ']');
            crate::text::lemma_trimmed_plain(t);
            assert(bracketed(t));
            crate::text::lemma_char_pos(s, ',');
            if s.len() > 0 {
                assert(!is_ws(s[0]) && !is_ws(s[s.len() - 1]));
            }
            crate::text::lemma_trimmed_plain(s);
            if i >= 0 {
                let d = decimal((i + 1) as nat);
                crate::text::lemma_decimal((i + 1) as nat);
                crate::text::lemma_decimal_int_value((i + 1) as nat);
                let inner = s + seq![','] + d;
                assert(bracket_inner(t) =~= inner);
                assert(inner[s.len() as int] == ',');
                assert forall|k: int| 0 <= k < s.len() implies inner[k] != ',' by {
                    assert(inner[k] == s[k]);
                }
                crate::text::lemma_char_pos_at(inner, ',', s.len() as int);
                assert(inner.take(s.len() as int) =~= s);
                assert(inner.skip(s.len() as int + 1) =~= d);
                assert(!is_ws(d[0]) && !is_ws(d[d.len() - 1]));
                crate::text::lemma_trimmed_plain(d);
            } else {
                assert(bracket_inner(t) =~= s);
                crate::text::lemma_char_pos(s, ',');
            }
        },
    }
}

impl Symbol {
    /// The text of the symbol.
    pub fn to_string(&self) -> (r: String)
        ensures
            r@ == symbol_text(self@),
    {
        match self {
            Symbol::T(w) => w.clone(),
            Symbol::NT { symbol, index } => {
                let mut out = String::new();
                proof {
                    reveal_strlit("[");
                    reveal_strlit(",");
                    reveal_strlit("]");
                }
                out.append("[");
                out.append(symbol.as_str());
                if *index >= 0 {
                    out.append(",");
                    push_decimal(&mut out, (*index as u64) + 1);
                }
                out.append("]");
                assert(out@ =~= symbol_text(self@));
                out
            },
        }
    }
}

} // verus!
verus! {

// -------------------------------------------------------------------- rules

/// Splits `s` at its first `n` separators `|||`, trimming every field.
pub fn splitpipe(s: &str, n: usize) -> (r: Vec<&str>)
    ensures
        str_views(r@) == crate::text::pipe_fields(s@, n as nat),
{
    let mut parts: Vec<&str> = Vec::new();
    let mut rest: &str = s;
    let mut k: usize = 0;
    assert(str_views(parts@) + crate::text::pipe_fields(s@, n as nat) =~= crate::text::pipe_fields(
        s@,
        n as nat,
    ));
    while k < n
        invariant
            k <= n,
            crate::text::pipe_fields(s@, n as nat) == str_views(parts@)
                + crate::text::pipe_fields(rest@, (n - k) as nat),
        decreases n - k,
    {
        match find_pipe(rest) {
            Some(pos) => {
                proof {
                    crate::text::lemma_pipe_pos(rest@);
                }
                let len = rest.unicode_len();
                let ghost before = parts@;
                let ghost old_rest = rest@;
                parts.push(trim(rest.substring_char(0, pos)));
                rest = trim(rest.substring_char(pos + 3, len));
                proof {
                    assert(str_views(parts@) =~= str_views(before) + seq![
                        trimmed(old_rest.take(pos as int)),
                    ]);
                    assert(old_rest.skip(pos as int + 3) =~= old_rest.subrange(
                        pos + 3,
                        len as int,
                    ));
                }
                k += 1;
            },
            None => {
                k = n;
            },
        }
    }
    let ghost before = parts@;
    parts.push(trim(rest));
    proof {
        assert(str_views(parts@) =~= str_views(before) + seq![trimmed(rest@)]);
    }
    parts
}

/// Number of nonterminals among `v`.
pub open spec fn count_nt(v: Seq<SymbolView>) -> nat
    decreases v.len(),
{
    if v.len() == 0 {
        0
    } else {
        count_nt(v.drop_last()) + if v.last() is NT {
            1nat
        } else {
            0nat
        }
    }
}

/// The link indices of the nonterminals among `v`, in order.
pub open spec fn nt_indices(v: Seq<SymbolView>) -> Seq<i32>
    decreases v.len(),
{
    if v.len() == 0 {
        Seq::empty()
    } else {
        let r = nt_indices(v.drop_last());
        match v.last() {
            SymbolView::NT(_, i) => r.push(i),
            SymbolView::T(_) => r,
        }
    }
}

pub proof fn lemma_count_nt_bound(v: Seq<SymbolView>)
    ensures
        count_nt(v) <= v.len(),
        nt_indices(v).len() == count_nt(v),
    decreases v.len(),
{
    if v.len() > 0 {
        lemma_count_nt_bound(v.drop_last());
    }
}

/// The symbols that the words of a text denote.
pub open spec fn symbols_of(s: Seq<char>) -> Seq<SymbolView> {
    words(s).map_values(|w: Seq<char>| symbol_of(w))
}

pub open spec fn words_ok(s: Seq<char>) -> bool {
    forall|k: int| 0 <= k < words(s).len() ==> symbol_text_ok(#[trigger] words(s)[k])
}

/// A copy of a sequence of symbols.
pub fn clone_symbols(v: &Vec<Symbol>) -> (r: Vec<Symbol>)
    ensures
        r@ == v@,
{
    let mut r: Vec<Symbol> = Vec::new();
    let mut i: usize = 0;
    while i < v.len()
        invariant
            i <= v.len(),
            r@ == v@.take(i as int),
        decreases v.len() - i,
    {
        r.push(v[i].clone());
        assert(v@.take(i + 1) =~= v@.take(i as int).push(v@[i as int]));
        i += 1;
    }
    assert(v@.take(v.len() as int) =~= v@);
    r
}

/// Reads the symbols that the words of `s` denote.
pub fn parse_symbols(s: &str) -> (r: Vec<Symbol>)
    requires
        words_ok(s@),
    ensures
        syms_view(r@) == symbols_of(s@),
{
    let ws = split_whitespace(s);
    let mut r: Vec<Symbol> = Vec::new();
    let mut i: usize = 0;
    while i < ws.len()
        invariant
            i <= ws.len(),
            string_views(ws@) == words(s@),
            words_ok(s@),
            syms_view(r@) == symbols_of(s@).take(i as int),
        decreases ws.len() - i,
    {
        assert(ws@[i as int]@ == words(s@)[i as int]);
        let sym = Symbol::parse(ws[i].as_str());
        let ghost before = r@;
        r.push(sym);
        proof {
            assert(syms_view(r@) =~= syms_view(before).push(sym@));
            assert(symbols_of(s@).take(i + 1) =~= symbols_of(s@).take(i as int).push(sym@));
        }
        i += 1;
    }
    assert(symbols_of(s@).take(ws.len() as int) =~= symbols_of(s@));
    r
}

/// Checks `words_ok`.
pub fn words_text_ok(s: &str) -> (r: bool)
    ensures
        r == words_ok(s@),
{
    let ws = split_whitespace(s);
    let mut i: usize = 0;
    while i < ws.len()
        invariant
            i <= ws.len(),
            string_views(ws@) == words(s@),
            forall|k: int| 0 <= k < i ==> symbol_text_ok(#[trigger] words(s@)[k]),
        decreases ws.len() - i,
    {
        assert(ws@[i as int]@ == words(s@)[i as int]);
        if !Symbol::text_ok(ws[i].as_str()) {
            return false;
        }
        i += 1;
    }
    true
}

/// A synchronous rule `lhs ||| rhs ||| target ||| features`: `map` lists
/// the link indices of the nonterminals of `rhs` in order, and `arity`
/// counts them.
#[derive(Debug)]
pub struct Rule {
    pub lhs: Symbol,
    pub rhs: Vec<Symbol>,
    pub target: Vec<Symbol>,
    pub map: Vec<i32>,
    pub f: Features,
    pub arity: usize,
}

impl Clone for Rule {
    fn clone(&self) -> (r: Self)
        ensures
            r.lhs == self.lhs,
            r.rhs@ == self.rhs@,
            r.target@ == self.target@,
            r.map@ == self.map@,
            r.f@ == self.f@,
            r.arity == self.arity,
    {
        Rule {
            lhs: self.lhs.clone(),
            rhs: clone_symbols(&self.rhs),
            target: clone_symbols(&self.target),
            map: self.map.clone(),
            f: self.f.clone(),
            arity: self.arity,
        }
    }
}

/// The text `s` can be read as a rule: it has at least two separators
/// `|||`, and its left-hand side and all words of its right-hand side and
/// target can be read as symbols.
pub open spec fn rule_text_ok(s: Seq<char>) -> bool {
    let p = crate::text::pipe_fields(s, 3);
    &&& p.len() >= 3
    &&& symbol_text_ok(p[0])
    &&& words_ok(p[1])
    &&& words_ok(p[2])
}

/// The features that the fourth field of a rule text gives.
pub open spec fn rule_features(p: Seq<Seq<char>>) -> Seq<(Seq<char>, Seq<char>)> {
    if p.len() > 3 && p[3].len() > 0 {
        kv_text(p[3], '=', ' ')
    } else {
        Seq::empty()
    }
}

/// `r` is the rule that the text `s` denotes.
pub open spec fn rule_read_from(r: Rule, s: Seq<char>) -> bool {
    let p = crate::text::pipe_fields(s, 3);
    &&& r.lhs@ == symbol_of(p[0])
    &&& syms_view(r.rhs@) == symbols_of(p[1])
    &&& syms_view(r.target@) == symbols_of(p[2])
    &&& r.map@ == nt_indices(syms_view(r.rhs@))
    &&& r.arity == count_nt(syms_view(r.rhs@))
    &&& r.f@ == rule_features(p)
}

impl Rule {
    pub fn new(lhs: Symbol, rhs: Vec<Symbol>, target: Vec<Symbol>, map: Vec<i32>, f: Features) -> (r:
        Rule)
        ensures
            r.lhs == lhs,
            r.rhs == rhs,
            r.target == target,
            r.map == map,
            r.f == f,
            r.arity == count_nt(syms_view(rhs@)),
    {
        let mut arity: usize = 0;
        let mut i: usize = 0;
        while i < rhs.len()
            invariant
                i <= rhs.len(),
                arity == count_nt(syms_view(rhs@).take(i as int)),
                arity <= i,
            decreases rhs.len() - i,
        {
            assert(syms_view(rhs@).take(i + 1).drop_last() =~= syms_view(rhs@).take(i as int));
            if rhs[i].is_nt() {
                arity += 1;
            }
            i += 1;
        }
        assert(syms_view(rhs@).take(rhs.len() as int) =~= syms_view(rhs@));
        Rule { lhs, rhs, target, map, f, arity }
    }

    /// Reads a rule `lhs ||| rhs ||| target [||| name=value ...]`.
    pub fn from_str(s: &str) -> (r: Rule)
        requires
            rule_text_ok(s@),
        ensures
            rule_read_from(r, s@),
    {
        let parts = splitpipe(s, 3);
        let ghost p = crate::text::pipe_fields(s@, 3);
        assert(parts@[0]@ == p[0]);
        assert(parts@[1]@ == p[1]);
        assert(parts@[2]@ == p[2]);
        let lhs = Symbol::parse(parts[0]);
        let rhs = parse_symbols(parts[1]);
        let mut map: Vec<i32> = Vec::new();
        let mut arity: usize = 0;
        let mut i: usize = 0;
        while i < rhs.len()
            invariant
                i <= rhs.len(),
                map@ == nt_indices(syms_view(rhs@).take(i as int)),
                arity == count_nt(syms_view(rhs@).take(i as int)),
                arity <= i,
            decreases rhs.len() - i,
        {
            assert(syms_view(rhs@).take(i + 1).drop_last() =~= syms_view(rhs@).take(i as int));
            match &rhs[i] {
                Symbol::NT { index, .. } => {
                    map.push(*index);
                    arity += 1;
                },
                Symbol::T(_) => {},
            }
            i += 1;
        }
        assert(syms_view(rhs@).take(rhs.len() as int) =~= syms_view(rhs@));
        let target = parse_symbols(parts[2]);
        let f = if parts.len() > 3 && parts[3].unicode_len() != 0 {
            assert(parts@[3]@ == p[3]);
            Features::from_kv(parts[3], '=', ' ')
        } else {
            Features::new()
        };
        Rule { lhs, rhs, target, map, f, arity }
    }

    /// Checks `rule_text_ok`.
    pub fn text_ok(s: &str) -> (r: bool)
        ensures
            r == rule_text_ok(s@),
    {
        let parts = splitpipe(s, 3);
        if parts.len() < 3 {
            return false;
        }
        Symbol::text_ok(parts[0]) && words_text_ok(parts[1]) && words_text_ok(parts[2])
    }
}

} // verus!
verus! {

/// The text of a sequence of symbols, separated by single spaces.
pub open spec fn symbols_text(v: Seq<SymbolView>) -> Seq<char> {
    crate::text::joined(v.map_values(|x: SymbolView| symbol_text(x)))
}

/// The separator between the fields of a rule text.
pub open spec fn field_sep() -> Seq<char> {
    seq![' ', '|', '|', '|', ' ']
}

/// The text of a rule: `lhs ||| rhs ||| target`.
pub open spec fn rule_text(lhs: SymbolView, rhs: Seq<SymbolView>, target: Seq<SymbolView>) -> Seq<
    char,
> {
    symbol_text(lhs) + field_sep() + symbols_text(rhs) + field_sep() + symbols_text(target)
}

/// Appends the texts of `v`, separated by single spaces, to `out`.
fn push_symbols(out: &mut String, v: &Vec<Symbol>)
    ensures
        final(out)@ == old(out)@ + symbols_text(syms_view(v@)),
{
    let ghost texts = syms_view(v@).map_values(|x: SymbolView| symbol_text(x));
    let ghost start = out@;
    let mut i: usize = 0;
    proof {
        reveal_strlit(" ");
        assert(texts.take(0) =~= Seq::<Seq<char>>::empty());
        assert(out@ =~= start + crate::text::joined(texts.take(0)));
    }
    while i < v.len()
        invariant
            i <= v.len(),
            texts == syms_view(v@).map_values(|x: SymbolView| symbol_text(x)),
            texts.len() == v@.len(),
            out@ == start + crate::text::joined(texts.take(i as int)),
        decreases v.len() - i,
    {
        let t = v[i].to_string();
        let ghost before = out@;
        proof {
            reveal_strlit(" ");
        }
        if i > 0 {
            out.append(" ");
        }
        out.append(t.as_str());
        proof {
            assert(texts[i as int] == symbol_text(syms_view(v@)[i as int]));
            assert(texts.take(i + 1).drop_last() =~= texts.take(i as int));
            assert(texts.take(i + 1).last() == t@);
            if i > 0 {
                assert(crate::text::joined(texts.take(i + 1)) == crate::text::joined(
                    texts.take(i as int),
                ) + seq![' '] + t@);
            }
            if i == 0 {
                assert(texts.take(1) =~= seq![t@]);
            }
            assert(out@ =~= start + crate::text::joined(texts.take(i + 1)));
        }
        i += 1;
    }
    assert(texts.take(v.len() as int) =~= texts);
}

impl Rule {
    /// The text `lhs ||| rhs ||| target` of the rule (without its features).
    pub fn to_string(&self) -> (r: String)
        ensures
            r@ == rule_text(self.lhs@, syms_view(self.rhs@), syms_view(self.target@)),
    {
        let mut out = self.lhs.to_string();
        proof {
            reveal_strlit(" ||| ");
        }
        out.append(" ||| ");
        push_symbols(&mut out, &self.rhs);
        out.append(" ||| ");
        push_symbols(&mut out, &self.target);
        out
    }
}

} // verus!
verus! {

// ------------------------------------------------------------ rule indexes

/// Rule indices listed under text keys, keys in the order they were first
/// used.
#[derive(Debug)]
pub struct RuleIndex {
    pub keys: Vec<String>,
    pub lists: Vec<Vec<usize>>,
}

impl RuleIndex {
    /// The keys are distinct and each has its list.
    pub open spec fn wf(&self) -> bool {
        &&& self.keys@.len() == self.lists@.len()
        &&& forall|i: int, j: int|
            0 <= i < j < self.keys@.len() ==> self.keys@[i]@ != self.keys@[j]@
    }

    pub open spec fn has_key(&self, k: Seq<char>) -> bool {
        exists|i: int| 0 <= i < self.keys@.len() && self.keys@[i]@ == k
    }

    /// The list under `k`, empty when `k` is not a key.
    pub open spec fn lookup(&self, k: Seq<char>) -> Seq<usize> {
        if self.has_key(k) {
            self.lists@[choose|i: int| 0 <= i < self.keys@.len() && self.keys@[i]@ == k]@
        } else {
            Seq::empty()
        }
    }

    pub proof fn lemma_lookup_at(&self, i: int)
        requires
            self.wf(),
            0 <= i < self.keys@.len(),
        ensures
            self.has_key(self.keys@[i]@),
            self.lookup(self.keys@[i]@) == self.lists@[i]@,
    {
        let k = self.keys@[i]@;
        let j = choose|j: int| 0 <= j < self.keys@.len() && self.keys@[j]@ == k;
        assert(i == j);
    }

    pub fn new() -> (r: RuleIndex)
        ensures
            r.wf(),
            r.keys@.len() == 0,
            forall|k: Seq<char>| r.lookup(k) == Seq::<usize>::empty(),
    {
        RuleIndex { keys: Vec::new(), lists: Vec::new() }
    }

    /// The position of `key` among the keys.
    pub fn position(&self, key: &str) -> (r: Option<usize>)
        requires
            self.wf(),
        ensures
            match r {
                Some(i) => i < self.keys@.len() && self.keys@[i as int]@ == key@,
                None => !self.has_key(key@),
            },
    {
        let mut i: usize = 0;
        while i < self.keys.len()
            invariant
                i <= self.keys@.len(),
                forall|j: int| 0 <= j < i ==> self.keys@[j]@ != key@,
            decreases self.keys.len() - i,
        {
            if crate::text::str_eq(self.keys[i].as_str(), key) {
                return Some(i);
            }
            i += 1;
        }
        None
    }

    /// The list under `key`, if `key` is a key.
    pub fn get(&self, key: &str) -> (r: Option<&Vec<usize>>)
        requires
            self.wf(),
        ensures
            match r {
                Some(l) => self.has_key(key@) && l@ == self.lookup(key@),
                None => !self.has_key(key@),
            },
    {
        match self.position(key) {
            Some(i) => {
                proof {
                    self.lemma_lookup_at(i as int);
                }
                Some(&self.lists[i])
            },
            None => None,
        }
    }

    /// Appends `idx` to the list under `key`, making `key` a key (the last
    /// one) if it is not one yet.
    pub fn push(&mut self, key: &str, idx: usize)
        requires
            old(self).wf(),
        ensures
            final(self).wf(),
            final(self).has_key(key@),
            forall|k: Seq<char>| #[trigger]
                final(self).lookup(k) == if k == key@ {
                    old(self).lookup(k).push(idx)
                } else {
                    old(self).lookup(k)
                },
            forall|k: Seq<char>| #[trigger]
                final(self).has_key(k) <==> (old(self).has_key(k) || k == key@),
            old(self).has_key(key@) ==> string_views(final(self).keys@) == string_views(
                old(self).keys@,
            ),
            !old(self).has_key(key@) ==> string_views(final(self).keys@) == string_views(
                old(self).keys@,
            ).push(key@),
    {
        match self.position(key) {
            Some(i) => {
                let ghost old_self = *self;
                self.lists[i].push(idx);
                proof {
                    old_self.lemma_lookup_at(i as int);
                    self.lemma_lookup_at(i as int);
                    assert(string_views(self.keys@) =~= string_views(old_self.keys@));
                    assert forall|k: Seq<char>| #[trigger] self.lookup(k) == if k == key@ {
                        old_self.lookup(k).push(idx)
                    } else {
                        old_self.lookup(k)
                    } by {
                        if k != key@ && old_self.has_key(k) {
                            let j = choose|j: int| 0 <= j < self.keys@.len() && self.keys@[j]@ == k;
                            old_self.lemma_lookup_at(j);
                            self.lemma_lookup_at(j);
                        }
                    }
                }
            },
            None => {
                let ghost old_self = *self;
                let mut l: Vec<usize> = Vec::new();
                l.push(idx);
                self.keys.push(String::from_str(key));
                self.lists.push(l);
                proof {
                    let n = old_self.keys@.len() as int;
                    assert(self.keys@[n]@ == key@);
                    self.lemma_lookup_at(n);
                    assert(string_views(self.keys@) =~= string_views(old_self.keys@).push(key@));
                    assert forall|k: Seq<char>| #[trigger] self.lookup(k) == if k == key@ {
                        old_self.lookup(k).push(idx)
                    } else {
                        old_self.lookup(k)
                    } by {
                        if k == key@ {
                            assert(old_self.lookup(k) =~= Seq::<usize>::empty());
                            assert(old_self.lookup(k).push(idx) =~= seq![idx]);
                        } else if old_self.has_key(k) {
                            let j = choose|j: int| 0 <= j < old_self.keys@.len() && old_self.keys@[j]@ == k;
                            old_self.lemma_lookup_at(j);
                            assert(self.keys@[j] == old_self.keys@[j]);
                            self.lemma_lookup_at(j);
                        } else {
                            assert(!self.has_key(k)) by {
                                if self.has_key(k) {
                                    let j = choose|j: int| 0 <= j < self.keys@.len() && self.keys@[j]@ == k;
                                    if j < n {
                                        assert(self.keys@[j] == old_self.keys@[j]);
                                    }
                                }
                            }
                        }
                    }
                    assert forall|k: Seq<char>| #[trigger] self.has_key(k) <==> (old_self.has_key(k)
                        || k == key@) by {
                        if old_self.has_key(k) {
                            let j = choose|j: int| 0 <= j < old_self.keys@.len() && old_self.keys@[j]@ == k;
                            assert(self.keys@[j] == old_self.keys@[j]);
                        }
                        if self.has_key(k) {
                            let j = choose|j: int| 0 <= j < self.keys@.len() && self.keys@[j]@ == k;
                            if j < n {
                                assert(self.keys@[j] == old_self.keys@[j]);
                            }
                        }
                    }
                }
            },
        }
    }
}

} // verus!
verus! {

// ------------------------------------------------------------------ grammar

/// A rule whose right-hand side starts with a nonterminal.
pub open spec fn lands_in_start_nt(r: Rule) -> bool {
    r.rhs@.len() > 0 && r.rhs@[0]@ is NT
}

/// A rule without nonterminals whose right-hand side starts with a word.
pub open spec fn lands_in_flat(r: Rule) -> bool {
    !lands_in_start_nt(r) && r.arity == 0
}

/// A rule with nonterminals whose right-hand side starts with a word.
pub open spec fn lands_in_start_t(r: Rule) -> bool {
    !lands_in_start_nt(r) && r.arity != 0
}

/// The three kinds of rules that a grammar lists apart.
pub enum RuleKind {
    StartNt,
    Flat,
    StartT,
}

pub open spec fn of_kind(r: Rule, kind: RuleKind) -> bool {
    match kind {
        RuleKind::StartNt => lands_in_start_nt(r),
        RuleKind::Flat => lands_in_flat(r),
        RuleKind::StartT => lands_in_start_t(r),
    }
}

/// The key under which a rule of a kind is listed: the category of its
/// first nonterminal, or its first word.
pub open spec fn rule_key(r: Rule) -> Seq<char> {
    match r.rhs@[0]@ {
        SymbolView::NT(s, _) => s,
        SymbolView::T(w) => w,
    }
}

/// Rule `r` belongs in a list of `kind`, under `key` if there is one.
pub open spec fn selects(r: Rule, kind: RuleKind, key: Option<Seq<char>>) -> bool {
    &&& of_kind(r, kind)
    &&& key matches Some(k) ==> rule_key(r) == k
}

/// `s` lists, in increasing order, exactly the indices of the rules of
/// `rules` that belong in a list of `kind` under `key`.
pub open spec fn lists_exactly(s: Seq<usize>, rules: Seq<Rule>, kind: RuleKind, key: Option<
    Seq<char>,
>) -> bool {
    &&& forall|i: int, j: int| 0 <= i < j < s.len() ==> s[i] < s[j]
    &&& forall|i: int|
        0 <= i < s.len() ==> s[i] < rules.len() && selects(rules[s[i] as int], kind, key)
    &&& forall|r: int|
        0 <= r < rules.len() && #[trigger] selects(rules[r], kind, key) ==> s.contains(r as usize)
}

/// Appending a rule keeps a list exact when the rule's index is appended
/// to it exactly when the rule belongs in it.
pub proof fn lemma_lists_push(
    s: Seq<usize>,
    rules: Seq<Rule>,
    kind: RuleKind,
    key: Option<Seq<char>>,
    rule: Rule,
)
    requires
        lists_exactly(s, rules, kind, key),
        rules.len() < usize::MAX,
    ensures
        lists_exactly(
            if selects(rule, kind, key) {
                s.push(rules.len() as usize)
            } else {
                s
            },
            rules.push(rule),
            kind,
            key,
        ),
{
    let n = rules.len() as int;
    let rs = rules.push(rule);
    assert forall|r: int| 0 <= r < n implies rs[r] == rules[r] by {}
    if selects(rule, kind, key) {
        let t = s.push(n as usize);
        assert forall|r: int| 0 <= r < rs.len() && #[trigger] selects(rs[r], kind, key) implies t.contains(
            r as usize,
        ) by {
            if r < n {
                assert(rs[r] == rules[r]);
                let i = choose|i: int| 0 <= i < s.len() && s[i] == r as usize;
                assert(t[i] == r as usize);
            } else {
                assert(t[s.len() as int] == r as usize);
            }
        }
        assert forall|i: int| 0 <= i < t.len() implies t[i] < rs.len() && selects(
            rs[t[i] as int],
            kind,
            key,
        ) by {
            if i < s.len() {
                assert(t[i] == s[i]);
                assert(rs[s[i] as int] == rules[s[i] as int]);
            }
        }
    } else {
        assert forall|r: int| 0 <= r < rs.len() && #[trigger] selects(rs[r], kind, key) implies s.contains(
            r as usize,
        ) by {
            if r < n {
                assert(rs[r] == rules[r]);
            }
        }
        assert forall|i: int| 0 <= i < s.len() implies s[i] < rs.len() && selects(
            rs[s[i] as int],
            kind,
            key,
        ) by {
            assert(rs[s[i] as int] == rules[s[i] as int]);
        }
    }
}

/// A grammar: its rules, the indices of the rules that start with a
/// nonterminal, that are flat (only words) and that start with a word but
/// have nonterminals, and the same lists keyed by the first symbol.
#[derive(Debug)]
pub struct Grammar {
    pub rules: Vec<Rule>,
    pub start_nt: Vec<usize>,
    pub start_t: Vec<usize>,
    pub flat: Vec<usize>,
    pub start_t_by_word: RuleIndex,
    pub flat_by_first_word: RuleIndex,
    pub start_nt_by_symbol: RuleIndex,
}

/// The lines of a grammar text that are not blank, trimmed.
pub open spec fn nonblank(ls: Seq<Seq<char>>) -> Seq<Seq<char>>
    decreases ls.len(),
{
    if ls.len() == 0 {
        Seq::empty()
    } else {
        let rest = nonblank(ls.drop_last());
        if trimmed(ls.last()).len() == 0 {
            rest
        } else {
            rest.push(trimmed(ls.last()))
        }
    }
}

/// A grammar line is blank, or a rule text with a nonempty right-hand side.
pub open spec fn line_ok(l: Seq<char>) -> bool {
    let t = trimmed(l);
    t.len() == 0 || (rule_text_ok(t) && words(crate::text::pipe_fields(t, 3)[1]).len() > 0)
}

impl Grammar {
    /// Every rule has a nonempty right-hand side and its arity, and the six
    /// lists hold exactly the indices of the rules of their kind, in
    /// increasing order, keyed by the first symbol of the right-hand side.
    pub open spec fn wf(&self) -> bool {
        let rules = self.rules@;
        let n = rules.len() as int;
        &&& self.start_t_by_word.wf()
        &&& self.flat_by_first_word.wf()
        &&& self.start_nt_by_symbol.wf()
        &&& forall|r: int|
            0 <= r < n ==> #[trigger] rules[r].rhs@.len() > 0 && rules[r].arity == count_nt(
                syms_view(rules[r].rhs@),
            )
        &&& lists_exactly(self.start_nt@, rules, RuleKind::StartNt, None)
        &&& lists_exactly(self.flat@, rules, RuleKind::Flat, None)
        &&& lists_exactly(self.start_t@, rules, RuleKind::StartT, None)
        &&& forall|k: Seq<char>|
            lists_exactly(
                #[trigger] self.start_nt_by_symbol.lookup(k),
                rules,
                RuleKind::StartNt,
                Some(k),
            )
        &&& forall|k: Seq<char>|
            lists_exactly(#[trigger] self.flat_by_first_word.lookup(k), rules, RuleKind::Flat, Some(k))
        &&& forall|k: Seq<char>|
            lists_exactly(#[trigger] self.start_t_by_word.lookup(k), rules, RuleKind::StartT, Some(k))
        &&& forall|k: Seq<char>| #[trigger]
            self.start_nt_by_symbol.has_key(k) ==> self.start_nt_by_symbol.lookup(k).len() > 0
        &&& forall|k: Seq<char>| #[trigger]
            self.flat_by_first_word.has_key(k) ==> self.flat_by_first_word.lookup(k).len() > 0
        &&& forall|k: Seq<char>| #[trigger]
            self.start_t_by_word.has_key(k) ==> self.start_t_by_word.lookup(k).len() > 0
    }

    /// Every rule has a nonterminal on its left-hand side.
    pub open spec fn lhs_nt(&self) -> bool {
        forall|r: int| 0 <= r < self.rules@.len() ==> (#[trigger] self.rules@[r]).lhs@ is NT
    }
}

} // verus!
verus! {

pub proof fn lemma_count_nt_zero(v: Seq<SymbolView>)
    requires
        count_nt(v) == 0,
    ensures
        forall|k: int| 0 <= k < v.len() ==> (#[trigger] v[k]) is T,
    decreases v.len(),
{
    if v.len() > 0 {
        lemma_count_nt_zero(v.drop_last());
        assert forall|k: int| 0 <= k < v.len() implies (#[trigger] v[k]) is T by {
            if k < v.len() - 1 {
                assert(v[k] == v.drop_last()[k]);
            }
        }
    }
}

/// Listing a rule under its key keeps an index exact.
proof fn lemma_index_push(
    old_idx: RuleIndex,
    new_idx: RuleIndex,
    rules: Seq<Rule>,
    kind: RuleKind,
    rule: Rule,
    listed: bool,
)
    requires
        old_idx.wf(),
        rules.len() < usize::MAX,
        forall|k: Seq<char>| lists_exactly(#[trigger] old_idx.lookup(k), rules, kind, Some(k)),
        forall|k: Seq<char>| #[trigger] old_idx.has_key(k) ==> old_idx.lookup(k).len() > 0,
        listed == of_kind(rule, kind),
        listed ==> forall|k: Seq<char>| #[trigger]
            new_idx.lookup(k) == if k == rule_key(rule) {
                old_idx.lookup(k).push(rules.len() as usize)
            } else {
                old_idx.lookup(k)
            },
        listed ==> forall|k: Seq<char>| #[trigger]
            new_idx.has_key(k) <==> (old_idx.has_key(k) || k == rule_key(rule)),
        !listed ==> new_idx == old_idx,
    ensures
        forall|k: Seq<char>|
            lists_exactly(#[trigger] new_idx.lookup(k), rules.push(rule), kind, Some(k)),
        forall|k: Seq<char>| #[trigger] new_idx.has_key(k) ==> new_idx.lookup(k).len() > 0,
{
    assert forall|k: Seq<char>|
        lists_exactly(#[trigger] new_idx.lookup(k), rules.push(rule), kind, Some(k)) by {
        lemma_lists_push(old_idx.lookup(k), rules, kind, Some(k), rule);
    }
}

impl Grammar {
    /// An empty grammar.
    pub fn empty() -> (g: Grammar)
        ensures
            g.wf(),
            g.rules@.len() == 0,
    {
        let g = Grammar {
            rules: Vec::new(),
            start_nt: Vec::new(),
            start_t: Vec::new(),
            flat: Vec::new(),
            start_t_by_word: RuleIndex::new(),
            flat_by_first_word: RuleIndex::new(),
            start_nt_by_symbol: RuleIndex::new(),
        };
        g
    }

    /// Appends a rule and lists its index under its kind and key.
    fn add_rule(&mut self, rule: Rule)
        requires
            old(self).wf(),
            old(self).rules@.len() < usize::MAX,
            rule.rhs@.len() > 0,
            rule.arity == count_nt(syms_view(rule.rhs@)),
        ensures
            final(self).wf(),
            final(self).rules@ == old(self).rules@.push(rule),
    {
        let ghost old_g = *self;
        let idx = self.rules.len();
        if rule.rhs[0].is_nt() {
            self.start_nt_by_symbol.push(rule.rhs[0].nt_symbol(), idx);
            self.start_nt.push(idx);
        } else if rule.arity == 0 {
            self.flat_by_first_word.push(rule.rhs[0].word(), idx);
            self.flat.push(idx);
        } else {
            self.start_t_by_word.push(rule.rhs[0].word(), idx);
            self.start_t.push(idx);
        }
        proof {
            let rules = old_g.rules@;
            lemma_lists_push(old_g.start_nt@, rules, RuleKind::StartNt, None, rule);
            lemma_lists_push(old_g.flat@, rules, RuleKind::Flat, None, rule);
            lemma_lists_push(old_g.start_t@, rules, RuleKind::StartT, None, rule);
            lemma_index_push(
                old_g.start_nt_by_symbol,
                self.start_nt_by_symbol,
                rules,
                RuleKind::StartNt,
                rule,
                of_kind(rule, RuleKind::StartNt),
            );
            lemma_index_push(
                old_g.flat_by_first_word,
                self.flat_by_first_word,
                rules,
                RuleKind::Flat,
                rule,
                of_kind(rule, RuleKind::Flat),
            );
            lemma_index_push(
                old_g.start_t_by_word,
                self.start_t_by_word,
                rules,
                RuleKind::StartT,
                rule,
                of_kind(rule, RuleKind::StartT),
            );
        }
        self.rules.push(rule);
        proof {
            let rs = self.rules@;
            assert forall|r: int| 0 <= r < rs.len() implies #[trigger] rs[r].rhs@.len() > 0
                && rs[r].arity == count_nt(syms_view(rs[r].rhs@)) by {
                if r < rs.len() - 1 {
                    assert(rs[r] == old_g.rules@[r]);
                }
            }
        }
    }
}

} // verus!
verus! {

impl Grammar {
    /// Reads a grammar from the lines of its text: every line that is not
    /// blank is a rule.
    pub fn from_lines(lines: &Vec<String>) -> (g: Grammar)
        requires
            forall|i: int| 0 <= i < lines@.len() ==> line_ok(#[trigger] lines@[i]@),
        ensures
            g.wf(),
            g.rules@.len() == nonblank(string_views(lines@)).len(),
            forall|k: int|
                0 <= k < g.rules@.len() ==> rule_read_from(
                    #[trigger] g.rules@[k],
                    nonblank(string_views(lines@))[k],
                ),
    {
        let mut g = Grammar::empty();
        let ghost ls = string_views(lines@);
        let mut i: usize = 0;
        while i < lines.len()
            invariant
                i <= lines@.len(),
                ls == string_views(lines@),
                forall|j: int| 0 <= j < lines@.len() ==> line_ok(#[trigger] lines@[j]@),
                g.wf(),
                g.rules@.len() <= i,
                g.rules@.len() == nonblank(ls.take(i as int)).len(),
                forall|k: int|
                    0 <= k < g.rules@.len() ==> rule_read_from(
                        #[trigger] g.rules@[k],
                        nonblank(ls.take(i as int))[k],
                    ),
            decreases lines.len() - i,
        {
            let line = trim(lines[i].as_str());
            proof {
                assert(ls.take(i + 1).drop_last() =~= ls.take(i as int));
                assert(ls.take(i + 1).last() == lines@[i as int]@);
                assert(line_ok(lines@[i as int]@));
            }
            if line.unicode_len() != 0 {
                let rule = Rule::from_str(line);
                proof {
                    lemma_count_nt_bound(syms_view(rule.rhs@));
                }
                g.add_rule(rule);
            }
            i += 1;
        }
        assert(ls.take(lines.len() as int) =~= ls);
        g
    }

    /// Checks that every line satisfies `line_ok`.
    pub fn lines_ok(lines: &Vec<String>) -> (r: bool)
        ensures
            r == forall|i: int| 0 <= i < lines@.len() ==> line_ok(#[trigger] lines@[i]@),
    {
        let mut i: usize = 0;
        while i < lines.len()
            invariant
                i <= lines@.len(),
                forall|j: int| 0 <= j < i ==> line_ok(#[trigger] lines@[j]@),
            decreases lines.len() - i,
        {
            let line = trim(lines[i].as_str());
            if line.unicode_len() != 0 {
                if !Rule::text_ok(line) {
                    return false;
                }
                let parts = splitpipe(line, 3);
                if split_whitespace(parts[1]).len() == 0 {
                    return false;
                }
            }
            i += 1;
        }
        true
    }
}

} // verus!
verus! {

/// The rule `[X] ||| w ||| w` that passes the word `w` through.
pub open spec fn is_pass_through(r: Rule, w: Seq<char>) -> bool {
    &&& r.lhs@ == SymbolView::NT(seq!['X'], -1i32)
    &&& syms_view(r.rhs@) == seq![SymbolView::T(w)]
    &&& syms_view(r.target@) == seq![SymbolView::T(w)]
    &&& r.map@.len() == 0
    &&& r.f@.len() == 0
    &&& r.arity == 0
}

/// The glue rule `[S] ||| [s,1] ||| [s,1]`.
pub open spec fn is_glue(r: Rule, s: Seq<char>) -> bool {
    &&& r.lhs@ == SymbolView::NT(seq!['S'], -1i32)
    &&& syms_view(r.rhs@) == seq![SymbolView::NT(s, 0)]
    &&& syms_view(r.target@) == seq![SymbolView::NT(s, 0)]
    &&& r.map@ == seq![0i32]
    &&& r.f@.len() == 0
    &&& r.arity == 1
}

/// The glue rule `[S] ||| [S,1] [X,2] ||| [S,1] [X,2]`.
pub open spec fn is_glue_chain(r: Rule) -> bool {
    let two = seq![SymbolView::NT(seq!['S'], 0), SymbolView::NT(seq!['X'], 1)];
    &&& r.lhs@ == SymbolView::NT(seq!['S'], -1i32)
    &&& syms_view(r.rhs@) == two
    &&& syms_view(r.target@) == two
    &&& r.map@ == seq![0i32, 1i32]
    &&& r.f@.len() == 0
    &&& r.arity == 2
}

/// `gs` lists, each once, the categories other than `S` of the left-hand
/// sides of `rules`.
pub open spec fn glue_symbols(gs: Seq<Seq<char>>, rules: Seq<Rule>) -> bool {
    &&& forall|i: int, j: int| 0 <= i < j < gs.len() ==> gs[i] != gs[j]
    &&& forall|i: int|
        0 <= i < gs.len() ==> gs[i] != seq!['S'] && exists|r: int|
            0 <= r < rules.len() && (#[trigger] rules[r]).lhs@->NT_0 == gs[i]
    &&& forall|r: int|
        0 <= r < rules.len() && (#[trigger] rules[r]).lhs@->NT_0 != seq!['S'] ==> gs.contains(
            rules[r].lhs@->NT_0,
        )
}

fn lit_x() -> (r: String)
    ensures
        r@ == seq!['X'],
{
    proof {
        reveal_strlit("X");
    }
    String::from_str("X")
}

fn lit_s() -> (r: String)
    ensures
        r@ == seq!['S'],
{
    proof {
        reveal_strlit("S");
    }
    String::from_str("S")
}

fn one_symbol(s: Symbol) -> (r: Vec<Symbol>)
    ensures
        syms_view(r@) == seq![s@],
{
    let mut r: Vec<Symbol> = Vec::new();
    r.push(s);
    assert(syms_view(r@) =~= seq![s@]);
    r
}

impl Grammar {
    /// Adds, for every word, a rule `[X] ||| word ||| word`.
    pub fn add_pass_through_rules(&mut self, words: &[String])
        requires
            old(self).wf(),
            old(self).rules@.len() + words@.len() < usize::MAX,
        ensures
            final(self).wf(),
            old(self).lhs_nt() ==> final(self).lhs_nt(),
            final(self).rules@.len() == old(self).rules@.len() + words@.len(),
            final(self).rules@.subrange(0, old(self).rules@.len() as int) == old(self).rules@,
            forall|k: int|
                0 <= k < words@.len() ==> is_pass_through(
                    #[trigger] final(self).rules@[old(self).rules@.len() + k],
                    words@[k]@,
                ),
    {
        let ghost old_rules = self.rules@;
        let mut i: usize = 0;
        while i < words.len()
            invariant
                i <= words@.len(),
                self.wf(),
                old_rules.len() + words@.len() < usize::MAX,
                self.rules@.len() == old_rules.len() + i,
                self.rules@.subrange(0, old_rules.len() as int) == old_rules,
                forall|k: int|
                    0 <= k < i ==> is_pass_through(
                        #[trigger] self.rules@[old_rules.len() + k],
                        words@[k]@,
                    ),
            decreases words.len() - i,
        {
            let w = &words[i];
            let lhs = Symbol::NT { symbol: lit_x(), index: -1 };
            let rhs = one_symbol(Symbol::T(w.clone()));
            let target = one_symbol(Symbol::T(w.clone()));
            let rule = Rule::new(lhs, rhs, target, Vec::new(), Features::new());
            proof {
                reveal_with_fuel(count_nt, 2);
                assert(syms_view(rule.rhs@).drop_last() =~= Seq::<SymbolView>::empty());
            }
            let ghost before = self.rules@;
            self.add_rule(rule);
            proof {
                assert(self.rules@.subrange(0, old_rules.len() as int) =~= before.subrange(
                    0,
                    old_rules.len() as int,
                ));
                assert forall|k: int| 0 <= k < i + 1 implies is_pass_through(
                    #[trigger] self.rules@[old_rules.len() + k],
                    words@[k]@,
                ) by {
                    if k < i {
                        assert(self.rules@[old_rules.len() + k] == before[old_rules.len() + k]);
                    }
                }
            }
            i += 1;
        }
        proof {
            if old(self).lhs_nt() {
                assert forall|r: int| 0 <= r < self.rules@.len() implies (
                #[trigger] self.rules@[r]).lhs@ is NT by {
                    if r < old_rules.len() {
                        assert(self.rules@[r] == self.rules@.subrange(0, old_rules.len() as int)[r]);
                    } else {
                        assert(is_pass_through(self.rules@[old_rules.len() + (r - old_rules.len())], words@[r - old_rules.len()]@));
                    }
                }
            }
        }
    }
}

} // verus!
verus! {

fn contains_str(v: &Vec<String>, s: &str) -> (r: bool)
    ensures
        r == string_views(v@).contains(s@),
{
    let mut i: usize = 0;
    while i < v.len()
        invariant
            i <= v@.len(),
            forall|j: int| 0 <= j < i ==> v@[j]@ != s@,
        decreases v.len() - i,
    {
        if crate::text::str_eq(v[i].as_str(), s) {
            assert(string_views(v@)[i as int] == s@);
            return true;
        }
        i += 1;
    }
    assert forall|j: int| 0 <= j < v@.len() implies string_views(v@)[j] != s@ by {
        assert(string_views(v@)[j] == v@[j]@);
    }
    false
}

impl Grammar {
    /// The categories, other than `S`, of the left-hand sides, each once.
    fn lhs_symbols(&self) -> (r: Vec<String>)
        requires
            self.lhs_nt(),
        ensures
            glue_symbols(string_views(r@), self.rules@),
    {
        let s_lit = lit_s();
        let mut gs: Vec<String> = Vec::new();
        let mut r: usize = 0;
        while r < self.rules.len()
            invariant
                r <= self.rules@.len(),
                self.lhs_nt(),
                s_lit@ == seq!['S'],
                glue_symbols(string_views(gs@), self.rules@.take(r as int)),
            decreases self.rules.len() - r,
        {
            let ghost rules = self.rules@;
            let ghost before = string_views(gs@);
            assert(rules[r as int].lhs@ is NT);
            let sym = self.rules[r].lhs.nt_symbol();
            if !crate::text::str_eq(sym, s_lit.as_str()) && !contains_str(&gs, sym) {
                gs.push(String::from_str(sym));
                proof {
                    assert(string_views(gs@) =~= before.push(sym@));
                }
            }
            proof {
                let gv = string_views(gs@);
                let rt = rules.take(r + 1);
                assert forall|i: int| 0 <= i < gv.len() implies gv[i] != seq!['S'] && exists|q: int|
                    0 <= q < rt.len() && (#[trigger] rt[q]).lhs@->NT_0 == gv[i] by {
                    if i < before.len() {
                        assert(gv[i] == before[i]);
                        let q = choose|q: int|
                            0 <= q < rules.take(r as int).len() && (#[trigger] rules.take(
                                r as int,
                            )[q]).lhs@->NT_0 == before[i];
                        assert(rt[q] == rules.take(r as int)[q]);
                    } else {
                        assert(rt[r as int] == rules[r as int]);
                    }
                }
                assert forall|q: int|
                    0 <= q < rt.len() && (#[trigger] rt[q]).lhs@->NT_0 != seq!['S'] implies gv.contains(
                    rt[q].lhs@->NT_0,
                ) by {
                    if q < r {
                        assert(rt[q] == rules.take(r as int)[q]);
                        let t = choose|t: int| 0 <= t < before.len() && before[t] == rt[q].lhs@->NT_0;
                        assert(gv[t] == before[t]);
                    } else {
                        assert(rt[q] == rules[r as int]);
                        if !before.contains(sym@) {
                            assert(gv[before.len() as int] == sym@);
                        } else {
                            let t = choose|t: int| 0 <= t < before.len() && before[t] == sym@;
                            assert(gv[t] == before[t]);
                        }
                    }
                }
            }
            r += 1;
        }
        assert(self.rules@.take(self.rules@.len() as int) =~= self.rules@);
        gs
    }

    /// Adds the glue rules: `[S] ||| [X,1] ||| [X,1]` for every category
    /// `X` other than `S` of a left-hand side and, when there is one, the
    /// rule `[S] ||| [S,1] [X,2] ||| [S,1] [X,2]`.
    pub fn add_glue_rules(&mut self)
        requires
            old(self).wf(),
            old(self).lhs_nt(),
            2 * old(self).rules@.len() + 1 < usize::MAX,
        ensures
            final(self).wf(),
            final(self).lhs_nt(),
            final(self).rules@.subrange(0, old(self).rules@.len() as int) == old(self).rules@,
            exists|gs: Seq<Seq<char>>|
                {
                    &&& glue_symbols(gs, old(self).rules@)
                    &&& final(self).rules@.len() == old(self).rules@.len() + gs.len() + if gs.len()
                        > 0 {
                        1int
                    } else {
                        0int
                    }
                    &&& forall|k: int|
                        0 <= k < gs.len() ==> is_glue(
                            #[trigger] final(self).rules@[old(self).rules@.len() + k],
                            gs[k],
                        )
                    &&& gs.len() > 0 ==> is_glue_chain(final(self).rules@.last())
                },
    {
        let ghost old_rules = self.rules@;
        let gs = self.lhs_symbols();
        let ghost gv = string_views(gs@);
        proof {
            // every glue symbol is the category of a distinct rule
            assert(gv.len() <= old_rules.len()) by {
                let f = |i: int| choose|r: int| 0 <= r < old_rules.len() && (
                #[trigger] old_rules[r]).lhs@->NT_0 == gv[i];
                lemma_injective_bound(gv, old_rules, f);
            }
        }
        let mut i: usize = 0;
        while i < gs.len()
            invariant
                i <= gs@.len(),
                gv == string_views(gs@),
                gv.len() <= old_rules.len(),
                2 * old_rules.len() + 1 < usize::MAX,
                self.wf(),
                self.lhs_nt(),
                self.rules@.len() == old_rules.len() + i,
                self.rules@.subrange(0, old_rules.len() as int) == old_rules,
                forall|k: int|
                    0 <= k < i ==> is_glue(#[trigger] self.rules@[old_rules.len() + k], gv[k]),
            decreases gs.len() - i,
        {
            let lhs = Symbol::NT { symbol: lit_s(), index: -1 };
            let rhs = one_symbol(Symbol::NT { symbol: gs[i].clone(), index: 0 });
            let target = one_symbol(Symbol::NT { symbol: gs[i].clone(), index: 0 });
            let mut map: Vec<i32> = Vec::new();
            map.push(0);
            let rule = Rule::new(lhs, rhs, target, map, Features::new());
            proof {
                reveal_with_fuel(count_nt, 2);
                assert(syms_view(rule.rhs@).drop_last() =~= Seq::<SymbolView>::empty());
                assert(rule.map@ =~= seq![0i32]);
                assert(gv[i as int] == gs@[i as int]@);
            }
            let ghost before = self.rules@;
            self.add_rule(rule);
            proof {
                assert(self.rules@.subrange(0, old_rules.len() as int) =~= before.subrange(
                    0,
                    old_rules.len() as int,
                ));
                assert forall|k: int| 0 <= k < i + 1 implies is_glue(
                    #[trigger] self.rules@[old_rules.len() + k],
                    gv[k],
                ) by {
                    if k < i {
                        assert(self.rules@[old_rules.len() + k] == before[old_rules.len() + k]);
                    }
                }
                assert forall|r: int| 0 <= r < self.rules@.len() implies (
                #[trigger] self.rules@[r]).lhs@ is NT by {
                    if r < before.len() {
                        assert(self.rules@[r] == before[r]);
                    }
                }
            }
            i += 1;
        }
        if gs.len() > 0 {
            let lhs = Symbol::NT { symbol: lit_s(), index: -1 };
            let mut rhs: Vec<Symbol> = Vec::new();
            rhs.push(Symbol::NT { symbol: lit_s(), index: 0 });
            rhs.push(Symbol::NT { symbol: lit_x(), index: 1 });
            let mut target: Vec<Symbol> = Vec::new();
            target.push(Symbol::NT { symbol: lit_s(), index: 0 });
            target.push(Symbol::NT { symbol: lit_x(), index: 1 });
            let mut map: Vec<i32> = Vec::new();
            map.push(0);
            map.push(1);
            let rule = Rule::new(lhs, rhs, target, map, Features::new());
            proof {
                let two = seq![SymbolView::NT(seq!['S'], 0), SymbolView::NT(seq!['X'], 1)];
                assert(syms_view(rule.rhs@) =~= two);
                assert(syms_view(rule.target@) =~= two);
                reveal_with_fuel(count_nt, 3);
                assert(two.drop_last().drop_last() =~= Seq::<SymbolView>::empty());
                assert(two.drop_last() =~= seq![SymbolView::NT(seq!['S'], 0)]);
                assert(rule.map@ =~= seq![0i32, 1i32]);
            }
            let ghost before = self.rules@;
            self.add_rule(rule);
            proof {
                assert(self.rules@.subrange(0, old_rules.len() as int) =~= before.subrange(
                    0,
                    old_rules.len() as int,
                ));
                assert forall|k: int| 0 <= k < gv.len() implies is_glue(
                    #[trigger] self.rules@[old_rules.len() + k],
                    gv[k],
                ) by {
                    assert(self.rules@[old_rules.len() + k] == before[old_rules.len() + k]);
                }
                assert forall|r: int| 0 <= r < self.rules@.len() implies (
                #[trigger] self.rules@[r]).lhs@ is NT by {
                    if r < before.len() {
                        assert(self.rules@[r] == before[r]);
                    }
                }
            }
        }
        assert(glue_symbols(gv, old_rules));
    }
}

/// A sequence without repetitions, each of whose elements is picked out by
/// a distinct position of `rules`, is no longer than `rules`.
proof fn lemma_injective_bound(gv: Seq<Seq<char>>, rules: Seq<Rule>, f: spec_fn(int) -> int)
    requires
        forall|i: int, j: int| 0 <= i < j < gv.len() ==> gv[i] != gv[j],
        forall|i: int|
            0 <= i < gv.len() ==> 0 <= #[trigger] f(i) < rules.len() && rules[f(i)].lhs@->NT_0
                == gv[i],
    ensures
        gv.len() <= rules.len(),
{
    let s = Set::new(|r: int| exists|i: int| 0 <= i < gv.len() && #[trigger] f(i) == r);
    let dom = Set::new(|r: int| 0 <= r < rules.len());
    assert(s.subset_of(dom));
    vstd::set_lib::lemma_int_range(0, rules.len() as int);
    assert(dom =~= vstd::set_lib::set_int_range(0, rules.len() as int));
    vstd::set_lib::lemma_len_subset(s, dom);
    let g = Seq::new(gv.len(), |i: int| f(i));
    assert(g.no_duplicates()) by {
        assert forall|i: int, j: int| 0 <= i < g.len() && 0 <= j < g.len() && i != j implies g[i]
            != g[j] by {
            if g[i] == g[j] {
                if i < j {
                    assert(gv[i] != gv[j]);
                } else {
                    assert(gv[j] != gv[i]);
                }
            }
        }
    }
    g.unique_seq_to_set();
    assert(g.to_set() =~= s) by {
        assert forall|r: int| s.contains(r) implies g.to_set().contains(r) by {
            let i = choose|i: int| 0 <= i < gv.len() && #[trigger] f(i) == r;
            assert(g[i] == r);
        }
    }
}

} // verus!
verus! {

// ------------------------------------------------------- rule text laws

/// A symbol whose text reads back as the symbol and holds no separator
/// `|||`.
pub open spec fn clean_symbol(v: SymbolView) -> bool {
    canonical_symbol(v) && crate::text::no_triple(symbol_text(v))
}

/// A rule whose text reads back as the rule: every symbol is clean, and no
/// word of its right-hand side or target is empty.
pub open spec fn clean_rule(lhs: SymbolView, rhs: Seq<SymbolView>, target: Seq<SymbolView>) -> bool {
    &&& clean_symbol(lhs)
    &&& forall|k: int|
        0 <= k < rhs.len() ==> clean_symbol(#[trigger] rhs[k]) && symbol_text(rhs[k]).len() > 0
    &&& forall|k: int|
        0 <= k < target.len() ==> clean_symbol(#[trigger] target[k]) && symbol_text(target[k]).len()
            > 0
}

/// The text of a canonical symbol holds no whitespace.
proof fn lemma_symbol_text_plain(v: SymbolView)
    requires
        canonical_symbol(v),
    ensures
        crate::text::no_ws(symbol_text(v)),
{
    if let SymbolView::NT(s, i) = v {
        let t = symbol_text(v);
        if i >= 0 {
            crate::text::lemma_decimal((i + 1) as nat);
            let d = decimal((i + 1) as nat);
            assert forall|k: int| 0 <= k < t.len() implies !is_ws(#[trigger] t[k]) by {
                if 1 <= k < 1 + s.len() {
                    assert(t[k] == s[k - 1]);
                } else if 2 + s.len() <= k < 2 + s.len() + d.len() {
                    assert(t[k] == d[k - 2 - s.len()]);
                }
            }
        } else {
            assert forall|k: int| 0 <= k < t.len() implies !is_ws(#[trigger] t[k]) by {
                if 1 <= k < 1 + s.len() {
                    assert(t[k] == s[k - 1]);
                }
            }
        }
    }
}

/// A text without whitespace at its ends is what remains of it padded
/// with a space on either side.
proof fn lemma_trim_padded(a: Seq<char>)
    requires
        a.len() == 0 || (!is_ws(a[0]) && !is_ws(a.last())),
    ensures
        trimmed(a + seq![' ']) == a,
        trimmed(seq![' '] + a) == a,
        trimmed(a) == a,
{
    let sp = seq![' '];
    let e = Seq::<char>::empty();
    assert(is_ws(' '));
    assert(crate::text::trimmed_start(e) == e);
    assert(crate::text::trimmed_end(e) == e);
    if a.len() == 0 {
        assert(a + sp =~= sp);
        assert(sp + a =~= sp);
        assert(sp.drop_first() =~= e);
        assert(sp.drop_last() =~= e);
        assert(crate::text::trimmed_start(sp) == crate::text::trimmed_start(e));
    } else {
        let t = a + sp;
        assert(t[0] == a[0]);
        assert(crate::text::trimmed_start(t) == t);
        assert(t.drop_last() =~= a);
        assert(crate::text::trimmed_end(t) == crate::text::trimmed_end(a));
        assert(crate::text::trimmed_end(a) == a);
        let w = sp + a;
        assert(w.drop_first() =~= a);
        assert(crate::text::trimmed_start(w) == crate::text::trimmed_start(a));
        assert(crate::text::trimmed_start(a) == a);
    }
}

/// Splitting `x ||| y` at its first separator, when `x` holds none and has
/// no whitespace at its ends.
proof fn lemma_split_field(x: Seq<char>, y: Seq<char>, n: nat)
    requires
        crate::text::no_triple(x),
        x.len() == 0 || (!is_ws(x[0]) && !is_ws(x.last())),
    ensures
        crate::text::pipe_fields(x + seq![' ', '|', '|', '|'] + y, n + 1) == seq![x]
            + crate::text::pipe_fields(trimmed(y), n),
{
    let sp = seq![' '];
    let bars = seq!['|', '|', '|'];
    let x1 = x + sp;
    let s = x + seq![' ', '|', '|', '|'] + y;
    assert(s =~= x1 + bars + y);
    crate::text::lemma_no_triple_space(x, Seq::<char>::empty());
    assert(x + sp + Seq::<char>::empty() =~= x1);
    crate::text::lemma_pipe_pos_after(x1, y);
    assert(s.take(x1.len() as int) =~= x1);
    assert(s.skip(x1.len() as int + 3) =~= y);
    lemma_trim_padded(x);
}

/// Splitting `||| y` at its separator.
proof fn lemma_split_empty(y: Seq<char>, n: nat)
    ensures
        crate::text::pipe_fields(seq!['|', '|', '|'] + y, n + 1) == seq![Seq::<char>::empty()]
            + crate::text::pipe_fields(trimmed(y), n),
{
    let s = seq!['|', '|', '|'] + y;
    let e = Seq::<char>::empty();
    assert(crate::text::pipe_at(s, 0));
    assert(s.take(0) =~= e);
    assert(s.skip(3) =~= y);
    assert(crate::text::trimmed_start(e) == e);
    assert(crate::text::trimmed_end(e) == e);
}

/// What remains of the middle and last fields once the first is split off.
proof fn lemma_trim_rest(b: Seq<char>, c: Seq<char>)
    requires
        b.len() == 0 || (!is_ws(b[0]) && !is_ws(b.last())),
        c.len() == 0 || (!is_ws(c[0]) && !is_ws(c.last())),
    ensures
        trimmed(seq![' '] + b + seq![' ', '|', '|', '|'] + seq![' '] + c) == if b.len() > 0 {
            b + seq![' ', '|', '|', '|'] + crate::text::trimmed_end(seq![' '] + c)
        } else {
            seq!['|', '|', '|'] + crate::text::trimmed_end(seq![' '] + c)
        },
        trimmed(crate::text::trimmed_end(seq![' '] + c)) == c,
{
    let sp = seq![' '];
    let bars = seq!['|', '|', '|'];
    let e = Seq::<char>::empty();
    let u = sp + b + sp;
    let v = sp + c;
    assert(is_ws(' '));
    assert(sp + b + seq![' ', '|', '|', '|'] + sp + c =~= u + (bars + v));
    crate::text::lemma_trimmed_start_concat(u, bars + v);
    let x2 = crate::text::trimmed_start(u);
    assert(x2 + (bars + v) =~= (x2 + bars) + v);
    crate::text::lemma_trimmed_end_concat(x2 + bars, v);
    assert(crate::text::trimmed_start(e) == e);
    assert(sp.drop_first() =~= e);
    assert(crate::text::trimmed_start(sp) == crate::text::trimmed_start(e));
    if b.len() > 0 {
        crate::text::lemma_trimmed_start_concat(sp, b + sp);
        assert(sp + (b + sp) =~= u);
        assert(x2 =~= b + sp);
        assert(x2 + bars =~= b + seq![' ', '|', '|', '|']);
    } else {
        assert(u =~= seq![' ', ' ']);
        assert(u.drop_first() =~= sp);
        assert(x2 =~= e);
        assert(x2 + bars =~= bars);
    }
    if c.len() > 0 {
        crate::text::lemma_trimmed_end_concat(v, e);
        assert(v + e =~= v);
        assert(v[v.len() - 1] == c.last());
        lemma_trim_padded(c);
    } else {
        assert(v =~= sp);
        assert(sp.drop_last() =~= e);
        assert(crate::text::trimmed_end(sp) == crate::text::trimmed_end(e));
        assert(crate::text::trimmed_end(e) == e);
    }
}

/// The fields of the text of a clean rule are the texts of its sides.
proof fn lemma_rule_fields(lhs: SymbolView, rhs: Seq<SymbolView>, target: Seq<SymbolView>)
    requires
        clean_rule(lhs, rhs, target),
    ensures
        crate::text::pipe_fields(rule_text(lhs, rhs, target), 3) == seq![
            symbol_text(lhs),
            symbols_text(rhs),
            symbols_text(target),
        ],
{
    let a = symbol_text(lhs);
    let rt = rhs.map_values(|x: SymbolView| symbol_text(x));
    let tt = target.map_values(|x: SymbolView| symbol_text(x));
    let b = symbols_text(rhs);
    let c = symbols_text(target);
    let sep = seq![' ', '|', '|', '|'];
    let sp = seq![' '];
    assert(is_ws(' '));
    lemma_symbol_text_plain(lhs);
    if a.len() > 0 {
        assert(!is_ws(a[0]) && !is_ws(a.last()));
    }
    assert forall|k: int| 0 <= k < rt.len() implies crate::text::no_triple(#[trigger] rt[k]) by {
        assert(clean_symbol(rhs[k]));
    }
    assert forall|k: int| 0 <= k < tt.len() implies crate::text::no_triple(#[trigger] tt[k]) by {
        assert(clean_symbol(target[k]));
    }
    crate::text::lemma_no_triple_joined(rt);
    crate::text::lemma_no_triple_joined(tt);
    lemma_joined_plain(rhs);
    lemma_joined_plain(target);
    let s = rule_text(lhs, rhs, target);
    let y1 = sp + b + sep + sp + c;
    assert(s =~= a + sep + y1);
    lemma_split_field(a, y1, 2);
    lemma_trim_rest(b, c);
    let y2 = crate::text::trimmed_end(sp + c);
    if b.len() > 0 {
        lemma_split_field(b, y2, 1);
    } else {
        lemma_split_empty(y2, 1);
    }
    crate::text::lemma_pipe_pos_none(c);
    lemma_trim_padded(c);
    assert(crate::text::pipe_fields(c, 1) =~= seq![c]);
    assert(crate::text::pipe_fields(s, 3) =~= seq![a, b, c]);
}

/// The texts of the symbols of a side of a clean rule are words: their
/// joined text splits back into them and neither starts nor ends with
/// whitespace.
proof fn lemma_joined_plain(v: Seq<SymbolView>)
    requires
        forall|k: int| 0 <= k < v.len() ==> clean_symbol(#[trigger] v[k]) && symbol_text(v[k]).len() > 0,
    ensures
        words(symbols_text(v)) == v.map_values(|x: SymbolView| symbol_text(x)),
        symbols_text(v).len() == 0 || (!is_ws(symbols_text(v)[0]) && !is_ws(
            symbols_text(v).last(),
        )),
{
    let ts = v.map_values(|x: SymbolView| symbol_text(x));
    assert forall|k: int| 0 <= k < ts.len() implies (#[trigger] ts[k]).len() > 0
        && crate::text::no_ws(ts[k]) by {
        lemma_symbol_text_plain(v[k]);
    }
    crate::text::lemma_words_joined(ts);
    lemma_joined_ends(ts);
}

proof fn lemma_joined_ends(ts: Seq<Seq<char>>)
    requires
        forall|k: int| 0 <= k < ts.len() ==> (#[trigger] ts[k]).len() > 0 && crate::text::no_ws(
            ts[k],
        ),
    ensures
        crate::text::joined(ts).len() == 0 || (!is_ws(crate::text::joined(ts)[0]) && !is_ws(
            crate::text::joined(ts).last(),
        )),
        ts.len() > 0 ==> crate::text::joined(ts).len() > 0,
    decreases ts.len(),
{
    if ts.len() == 1 {
        assert(!is_ws(ts[0][0]) && !is_ws(ts[0].last()));
    } else if ts.len() > 1 {
        let d = ts.drop_last();
        assert forall|k: int| 0 <= k < d.len() implies (#[trigger] d[k]).len() > 0
            && crate::text::no_ws(d[k]) by {
            assert(d[k] == ts[k]);
        }
        lemma_joined_ends(d);
        let j = crate::text::joined(ts);
        assert(j == crate::text::joined(d) + seq![' '] + ts.last());
        assert(j[0] == crate::text::joined(d)[0]);
        assert(j.last() == ts.last().last());
        assert(ts.last().len() > 0 && crate::text::no_ws(ts.last()));
    }
}

/// What `Rule::to_string` writes, `Rule::from_str` reads back: the text
/// of a clean rule can be read, and the rule read from it has the same
/// left-hand side, right-hand side and target, and no features.
pub proof fn lemma_rule_text_roundtrip(r: Rule, back: Rule)
    requires
        clean_rule(r.lhs@, syms_view(r.rhs@), syms_view(r.target@)),
        rule_read_from(back, rule_text(r.lhs@, syms_view(r.rhs@), syms_view(r.target@))),
    ensures
        rule_text_ok(rule_text(r.lhs@, syms_view(r.rhs@), syms_view(r.target@))),
        back.lhs@ == r.lhs@,
        syms_view(back.rhs@) == syms_view(r.rhs@),
        syms_view(back.target@) == syms_view(r.target@),
        back.f@.len() == 0,
{
    let lhs = r.lhs@;
    let rhs = syms_view(r.rhs@);
    let target = syms_view(r.target@);
    lemma_rule_fields(lhs, rhs, target);
    lemma_symbol_text_roundtrip(lhs);
    lemma_joined_plain(rhs);
    lemma_joined_plain(target);
    assert forall|k: int| 0 <= k < rhs.len() implies symbol_of(symbol_text(#[trigger] rhs[k]))
        == rhs[k] && symbol_text_ok(symbol_text(rhs[k])) by {
        lemma_symbol_text_roundtrip(rhs[k]);
    }
    assert forall|k: int| 0 <= k < target.len() implies symbol_of(symbol_text(#[trigger] target[k]))
        == target[k] && symbol_text_ok(symbol_text(target[k])) by {
        lemma_symbol_text_roundtrip(target[k]);
    }
    assert(symbols_of(symbols_text(rhs)) =~= rhs);
    assert(symbols_of(symbols_text(target)) =~= target);
}

} // verus!

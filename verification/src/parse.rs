//! Chart parsing of an input sentence with the rules of a grammar.
use vstd::prelude::*;

use crate::grammar::{count_nt, Grammar, Rule, RuleIndex, Symbol, SymbolView, syms_view};
use crate::text::str_eq;

verus! {

broadcast use vstd::string::group_string_axioms;

/// A span `[left, right)` of the input; `-1` marks one not yet known.
#[derive(Debug, Clone, Copy)]
pub struct Span {
    pub left: i32,
    pub right: i32,
}

/// A (possibly partial) application of rule `rule_idx` over the input from
/// `left` to `right`, whose right-hand side has been matched up to `dot`;
/// `tail_spans` has one entry per right-hand-side symbol, a span for each
/// nonterminal and nothing for each word.
#[derive(Debug)]
pub struct Item {
    pub rule_idx: usize,
    pub left: usize,
    pub right: usize,
    pub dot: usize,
    pub tail_spans: Vec<Option<Span>>,
}

impl Clone for Item {
    fn clone(&self) -> (r: Self)
        ensures
            r.rule_idx == self.rule_idx,
            r.left == self.left,
            r.right == self.right,
            r.dot == self.dot,
            r.tail_spans@ == self.tail_spans@,
    {
        Item {
            rule_idx: self.rule_idx,
            left: self.left,
            right: self.right,
            dot: self.dot,
            tail_spans: copy_spans(&self.tail_spans),
        }
    }
}

/// A copy of a list of optional spans.
fn copy_spans(v: &Vec<Option<Span>>) -> (r: Vec<Option<Span>>)
    ensures
        r@ == v@,
{
    let mut r: Vec<Option<Span>> = Vec::new();
    let mut i: usize = 0;
    while i < v.len()
        invariant
            i <= v.len(),
            r@ == v@.take(i as int),
        decreases v.len() - i,
    {
        r.push(v[i]);
        assert(v@.take(i + 1) =~= v@.take(i as int).push(v@[i as int]));
        i += 1;
    }
    assert(v@.take(v.len() as int) =~= v@);
    r
}

/// The initial tail spans of an item for a right-hand side: an unknown
/// span for each nonterminal, nothing for each word.
pub open spec fn initial_spans(rhs: Seq<SymbolView>) -> Seq<Option<Span>> {
    rhs.map_values(
        |s: SymbolView|
            if s is NT {
                Some(Span { left: -1i32, right: -1i32 })
            } else {
                None
            },
    )
}

impl Item {
    /// A fresh item of rule `rule_idx`, whose right-hand side is `rhs`.
    pub fn from_rule(rule_idx: usize, rhs: &[Symbol], left: usize, right: usize, dot: usize) -> (r:
        Item)
        ensures
            r.rule_idx == rule_idx,
            r.left == left,
            r.right == right,
            r.dot == dot,
            r.tail_spans@ == initial_spans(syms_view(rhs@)),
    {
        let mut tail_spans: Vec<Option<Span>> = Vec::new();
        let mut i: usize = 0;
        while i < rhs.len()
            invariant
                i <= rhs@.len(),
                tail_spans@ == initial_spans(syms_view(rhs@)).take(i as int),
            decreases rhs.len() - i,
        {
            let sp = if rhs[i].is_nt() {
                Some(Span { left: -1, right: -1 })
            } else {
                None
            };
            tail_spans.push(sp);
            assert(initial_spans(syms_view(rhs@)).take(i + 1) =~= initial_spans(
                syms_view(rhs@),
            ).take(i as int).push(sp));
            i += 1;
        }
        assert(initial_spans(syms_view(rhs@)).take(rhs@.len() as int) =~= initial_spans(
            syms_view(rhs@),
        ));
        Item { rule_idx, left, right, dot, tail_spans }
    }

    /// The same item moved to `left`, `right` and `dot`.
    pub fn advance(&self, left: usize, right: usize, dot: usize) -> (r: Item)
        ensures
            r.rule_idx == self.rule_idx,
            r.left == left,
            r.right == right,
            r.dot == dot,
            r.tail_spans@ == self.tail_spans@,
    {
        Item { rule_idx: self.rule_idx, left, right, dot, tail_spans: copy_spans(&self.tail_spans) }
    }
}

// -------------------------------------------------------------------- chart

/// The right ends recorded for one symbol at one left end.
#[derive(Debug)]
struct LeftEntry {
    left: u16,
    rights: Vec<u16>,
}

/// A chart over an input of `n` words: a list of items per cell `(i, j)`,
/// `0 <= i, j <= n`, and an index of the `(symbol, left, right)` entries
/// recorded with them: for each symbol and left end, the right ends in
/// increasing order. Symbols get consecutive `u16` ids and positions are
/// kept as `u16` in the index.
pub struct Chart {
    n: usize,
    m: Vec<Vec<Vec<Item>>>,
    syms: Vec<String>,
    lefts: Vec<Vec<LeftEntry>>,
}

/// `s` is strictly increasing.
pub open spec fn increasing(s: Seq<u16>) -> bool {
    forall|a: int, b: int| 0 <= a < b < s.len() ==> s[a] < s[b]
}

/// The first position from `k` on whose element is at least `x`, or the
/// length of `s` when there is none.
pub open spec fn first_at_least(s: Seq<u16>, x: u16, k: int) -> int
    decreases s.len() - k,
{
    if k < 0 || k >= s.len() {
        s.len() as int
    } else if s[k] >= x {
        k
    } else {
        first_at_least(s, x, k + 1)
    }
}

/// `s` with `x` inserted in its place, unless `x` is already there.
pub open spec fn with_right(s: Seq<u16>, x: u16) -> Seq<u16> {
    let p = first_at_least(s, x, 0);
    if p < s.len() && s[p] == x {
        s
    } else {
        s.insert(p, x)
    }
}

proof fn lemma_first_at_least(s: Seq<u16>, x: u16, k: int)
    requires
        0 <= k <= s.len(),
    ensures
        k <= first_at_least(s, x, k) <= s.len(),
        forall|q: int| k <= q < first_at_least(s, x, k) ==> s[q] < x,
        first_at_least(s, x, k) < s.len() ==> s[first_at_least(s, x, k)] >= x,
    decreases s.len() - k,
{
    if k < s.len() && s[k] < x {
        lemma_first_at_least(s, x, k + 1);
    }
}

/// Putting a right end in its place keeps a list increasing and adds just
/// that right end.
pub proof fn lemma_with_right(s: Seq<u16>, x: u16)
    requires
        increasing(s),
    ensures
        increasing(with_right(s, x)),
        forall|y: u16| #[trigger] with_right(s, x).contains(y) <==> (s.contains(y) || y == x),
        with_right(s, x).len() > 0,
{
    lemma_first_at_least(s, x, 0);
    let p = first_at_least(s, x, 0);
    if p < s.len() && s[p] == x {
        assert(s.contains(x));
    } else {
        let t = s.insert(p, x);
        assert forall|a: int, b: int| 0 <= a < b < t.len() implies t[a] < t[b] by {
            if b < p {
                assert(t[a] == s[a] && t[b] == s[b]);
            } else if b == p {
                assert(t[a] == s[a]);
            } else if a < p {
                assert(t[a] == s[a] && t[b] == s[b - 1]);
                if p < s.len() {
                    assert(s[p] >= x);
                    assert(s[p] != x);
                    if b - 1 > p {
                        assert(s[p] < s[b - 1]);
                    }
                }
            } else if a == p {
                assert(t[b] == s[b - 1]);
                assert(s[p] >= x && s[p] != x);
                if b - 1 > p {
                    assert(s[p] < s[b - 1]);
                }
            } else {
                assert(t[a] == s[a - 1] && t[b] == s[b - 1]);
            }
        }
        assert forall|y: u16| #[trigger] t.contains(y) <==> (s.contains(y) || y == x) by {
            if t.contains(y) {
                let q = choose|q: int| 0 <= q < t.len() && t[q] == y;
                if q < p {
                    assert(s[q] == y);
                } else if q > p {
                    assert(s[q - 1] == y);
                }
            }
            if s.contains(y) {
                let q = choose|q: int| 0 <= q < s.len() && s[q] == y;
                if q < p {
                    assert(t[q] == y);
                } else {
                    assert(t[q + 1] == y);
                }
            }
            if y == x {
                assert(t[p] == x);
            }
        }
    }
}

impl Chart {
    /// The number of input words the chart is for.
    pub closed spec fn size(&self) -> nat {
        self.n as nat
    }

    /// The items in cell `(i, j)`.
    pub closed spec fn cell(&self, i: int, j: int) -> Seq<Item> {
        self.m@[i]@[j]@
    }

    /// The number of distinct symbols recorded so far.
    pub closed spec fn num_symbols(&self) -> nat {
        self.syms@.len()
    }

    /// `s` has been recorded.
    pub closed spec fn known(&self, s: Seq<char>) -> bool {
        exists|id: int| 0 <= id < self.syms@.len() && self.syms@[id]@ == s
    }

    closed spec fn sym_pos(&self, s: Seq<char>) -> int {
        choose|id: int| 0 <= id < self.syms@.len() && self.syms@[id]@ == s
    }

    closed spec fn entry_pos(entries: Seq<LeftEntry>, l: u16) -> int {
        choose|e: int| 0 <= e < entries.len() && entries[e].left == l
    }

    closed spec fn rights_in(entries: Seq<LeftEntry>, l: u16) -> Seq<u16> {
        if exists|e: int| 0 <= e < entries.len() && entries[e].left == l {
            entries[Self::entry_pos(entries, l)].rights@
        } else {
            Seq::empty()
        }
    }

    /// The right ends recorded for `s` at left end `l`, in increasing order.
    pub closed spec fn rights(&self, s: Seq<char>, l: u16) -> Seq<u16> {
        if self.known(s) {
            Self::rights_in(self.lefts@[self.sym_pos(s)]@, l)
        } else {
            Seq::empty()
        }
    }

    /// The chart is well formed.
    pub closed spec fn inv(&self) -> bool {
        &&& self.m@.len() == self.n + 1
        &&& forall|i: int| 0 <= i <= self.n ==> (#[trigger] self.m@[i])@.len() == self.n + 1
        &&& self.syms@.len() == self.lefts@.len()
        &&& self.syms@.len() <= 65535
        &&& forall|a: int, b: int|
            0 <= a < b < self.syms@.len() ==> self.syms@[a]@ != self.syms@[b]@
        &&& forall|id: int, e1: int, e2: int|
            0 <= id < self.lefts@.len() && 0 <= e1 < e2 < self.lefts@[id]@.len() ==> (
            #[trigger] self.lefts@[id]@[e1]).left != (#[trigger] self.lefts@[id]@[e2]).left
        &&& forall|id: int, e: int|
            0 <= id < self.lefts@.len() && 0 <= e < self.lefts@[id]@.len() ==> (#[trigger] self.lefts@[id]@[e]).rights@.len() > 0
                && increasing(self.lefts@[id]@[e].rights@)
    }

    proof fn lemma_sym_pos(&self, id: int)
        requires
            self.inv(),
            0 <= id < self.syms@.len(),
        ensures
            self.known(self.syms@[id]@),
            self.sym_pos(self.syms@[id]@) == id,
    {
    }

    proof fn lemma_rights_in(entries: Seq<LeftEntry>, e: int)
        requires
            forall|e1: int, e2: int|
                0 <= e1 < e2 < entries.len() ==> (#[trigger] entries[e1]).left != (
                #[trigger] entries[e2]).left,
            0 <= e < entries.len(),
        ensures
            Self::rights_in(entries, entries[e].left) == entries[e].rights@,
    {
        let e2 = Self::entry_pos(entries, entries[e].left);
        if e != e2 {
            if e < e2 {
                assert(entries[e].left != entries[e2].left);
            } else {
                assert(entries[e2].left != entries[e].left);
            }
        }
    }

    /// The right ends recorded for a symbol at a left end increase.
    pub proof fn lemma_rights_increasing(&self, s: Seq<char>, l: u16)
        requires
            self.inv(),
        ensures
            increasing(self.rights(s, l)),
    {
        if self.known(s) {
            let id = self.sym_pos(s);
            let entries = self.lefts@[id]@;
            if exists|e: int| 0 <= e < entries.len() && entries[e].left == l {
                let e = Self::entry_pos(entries, l);
                assert(increasing(entries[e].rights@));
            }
        }
    }

    /// An empty chart for an input of `n` words.
    pub fn new(n: usize) -> (c: Chart)
        requires
            n < usize::MAX,
        ensures
            c.inv(),
            c.size() == n,
            c.num_symbols() == 0,
            forall|i: int, j: int| 0 <= i <= n && 0 <= j <= n ==> c.cell(i, j).len() == 0,
            forall|s: Seq<char>, l: u16| #[trigger] c.rights(s, l).len() == 0,
            forall|s: Seq<char>| !c.known(s),
    {
        let mut m: Vec<Vec<Vec<Item>>> = Vec::new();
        let mut i: usize = 0;
        while i <= n
            invariant
                i <= n + 1,
                n < usize::MAX,
                m@.len() == i,
                forall|a: int| 0 <= a < i ==> (#[trigger] m@[a])@.len() == n + 1,
                forall|a: int, b: int| 0 <= a < i && 0 <= b <= n ==> m@[a]@[b]@.len() == 0,
            decreases n + 1 - i,
        {
            let mut row: Vec<Vec<Item>> = Vec::new();
            let mut j: usize = 0;
            while j <= n
                invariant
                    j <= n + 1,
                    n < usize::MAX,
                    row@.len() == j,
                    forall|b: int| 0 <= b < j ==> (#[trigger] row@[b])@.len() == 0,
                decreases n + 1 - j,
            {
                row.push(Vec::new());
                j += 1;
            }
            m.push(row);
            i += 1;
        }
        Chart { n, m, syms: Vec::new(), lefts: Vec::new() }
    }

    /// The id of `symbol`, giving it the next id when it is new.
    fn sym_id(&mut self, symbol: &str) -> (id: u16)
        requires
            old(self).inv(),
            old(self).known(symbol@) || old(self).num_symbols() < 65535,
        ensures
            final(self).inv(),
            final(self).n == old(self).n,
            final(self).m == old(self).m,
            (id as int) < final(self).syms@.len(),
            final(self).syms@[id as int]@ == symbol@,
            old(self).known(symbol@) ==> final(self).lefts@[id as int] == old(self).lefts@[id as int],
            !old(self).known(symbol@) ==> final(self).lefts@[id as int]@.len() == 0,
            old(self).known(symbol@) ==> final(self).syms == old(self).syms && final(self).lefts
                == old(self).lefts,
            !old(self).known(symbol@) ==> final(self).syms@.len() == old(self).syms@.len() + 1
                && final(self).syms@.subrange(0, old(self).syms@.len() as int) == old(
                self,
            ).syms@ && final(self).lefts@.subrange(0, old(self).syms@.len() as int) == old(
                self,
            ).lefts@,
    {
        match self.sym_id_lookup(symbol) {
            Some(id) => id,
            None => {
                let id = self.syms.len() as u16;
                let ghost old_syms = self.syms@;
                let ghost old_lefts = self.lefts@;
                self.syms.push(String::from_str(symbol));
                self.lefts.push(Vec::new());
                proof {
                    assert(self.syms@.subrange(0, old_syms.len() as int) =~= old_syms);
                    assert(self.lefts@.subrange(0, old_syms.len() as int) =~= old_lefts);
                    assert forall|id2: int, e1: int, e2: int|
                        0 <= id2 < self.lefts@.len() && 0 <= e1 < e2 < self.lefts@[id2]@.len()
                        implies (#[trigger] self.lefts@[id2]@[e1]).left != (
                    #[trigger] self.lefts@[id2]@[e2]).left by {
                        assert(self.lefts@[id2] == old_lefts[id2]);
                    }
                    assert forall|id2: int, e: int|
                        0 <= id2 < self.lefts@.len() && 0 <= e < self.lefts@[id2]@.len() implies (
                    #[trigger] self.lefts@[id2]@[e]).rights@.len() > 0
                        && increasing(self.lefts@[id2]@[e].rights@) by {
                        assert(self.lefts@[id2] == old_lefts[id2]);
                    }
                }
                id
            },
        }
    }

    /// The id of `symbol`, if it has one.
    fn sym_id_lookup(&self, symbol: &str) -> (r: Option<u16>)
        requires
            self.inv(),
        ensures
            match r {
                Some(id) => self.known(symbol@) && (id as int) < self.syms@.len()
                    && self.syms@[id as int]@ == symbol@,
                None => !self.known(symbol@),
            },
    {
        let mut i: usize = 0;
        while i < self.syms.len()
            invariant
                i <= self.syms@.len(),
                self.syms@.len() <= 65535,
                forall|k: int| 0 <= k < i ==> self.syms@[k]@ != symbol@,
            decreases self.syms.len() - i,
        {
            if str_eq(self.syms[i].as_str(), symbol) {
                return Some(i as u16);
            }
            i += 1;
        }
        None
    }

    /// The items in cell `(i, j)`.
    pub fn at(&self, i: usize, j: usize) -> (r: &Vec<Item>)
        requires
            self.inv(),
            i <= self.size(),
            j <= self.size(),
        ensures
            r@ == self.cell(i as int, j as int),
    {
        &self.m[i][j]
    }

    /// The items in cell `(i, j)`, to be changed in place.
    pub fn at_mut(&mut self, i: usize, j: usize) -> (r: &mut Vec<Item>)
        requires
            old(self).inv(),
            i <= old(self).size(),
            j <= old(self).size(),
        ensures
            r@ == old(self).cell(i as int, j as int),
            final(self).inv(),
            final(self).size() == old(self).size(),
            final(self).cell(i as int, j as int) == final(r)@,
            forall|a: int, b: int|
                0 <= a <= old(self).size() && 0 <= b <= old(self).size() && !(a == i && b == j)
                    ==> #[trigger] final(self).cell(a, b) == old(self).cell(a, b),
            forall|s: Seq<char>, l: u16| #[trigger]
                final(self).rights(s, l) == old(self).rights(s, l),
            forall|s: Seq<char>| #[trigger] final(self).known(s) == old(self).known(s),
            final(self).num_symbols() == old(self).num_symbols(),
    {
        &mut self.m[i][j]
    }
}

} // verus!
verus! {

fn contains_u16(v: &Vec<u16>, x: u16) -> (r: bool)
    ensures
        r == v@.contains(x),
{
    let mut k: usize = 0;
    while k < v.len()
        invariant
            k <= v@.len(),
            forall|q: int| 0 <= q < k ==> v@[q] != x,
        decreases v.len() - k,
    {
        if v[k] == x {
            assert(v@[k as int] == x);
            return true;
        }
        k += 1;
    }
    false
}

/// The first position of `v` whose element is at least `x`, or its
/// length when there is none.
fn first_at_least_in(v: &Vec<u16>, x: u16) -> (p: usize)
    ensures
        p == first_at_least(v@, x, 0),
        p <= v@.len(),
{
    let mut k: usize = 0;
    while k < v.len()
        invariant
            k <= v@.len(),
            first_at_least(v@, x, 0) == first_at_least(v@, x, k as int),
        decreases v.len() - k,
    {
        if v[k] >= x {
            return k;
        }
        k += 1;
    }
    k
}

impl Chart {
    /// Position of the entry for left end `l` among `entries`.
    fn find_left(entries: &Vec<LeftEntry>, l: u16) -> (r: Option<usize>)
        ensures
            match r {
                Some(e) => e < entries@.len() && entries@[e as int].left == l,
                None => forall|e: int| 0 <= e < entries@.len() ==> entries@[e].left != l,
            },
    {
        let mut e: usize = 0;
        while e < entries.len()
            invariant
                e <= entries@.len(),
                forall|k: int| 0 <= k < e ==> entries@[k].left != l,
            decreases entries.len() - e,
        {
            if entries[e].left == l {
                return Some(e);
            }
            e += 1;
        }
        None
    }

    /// Adds `item` to cell `(i, j)` and records `(symbol, i, j)`.
    pub fn add(&mut self, item: Item, i: usize, j: usize, symbol: &str)
        requires
            old(self).inv(),
            i <= old(self).size(),
            j <= old(self).size(),
            old(self).known(symbol@) || old(self).num_symbols() < 65535,
        ensures
            final(self).inv(),
            final(self).size() == old(self).size(),
            final(self).cell(i as int, j as int) == old(self).cell(i as int, j as int).push(item),
            forall|a: int, b: int|
                0 <= a <= old(self).size() && 0 <= b <= old(self).size() && !(a == i && b == j)
                    ==> #[trigger] final(self).cell(a, b) == old(self).cell(a, b),
            forall|s: Seq<char>| #[trigger]
                final(self).known(s) == (old(self).known(s) || s == symbol@),
            final(self).num_symbols() == old(self).num_symbols() + if old(self).known(symbol@) {
                0int
            } else {
                1int
            },
            forall|s: Seq<char>, l: u16| #[trigger]
                final(self).rights(s, l) == if s == symbol@ && l == i as u16 {
                    with_right(old(self).rights(s, l), j as u16)
                } else {
                    old(self).rights(s, l)
                },
    {
        let ghost c0 = *self;
        let sid = self.sym_id(symbol);
        let ghost c1 = *self;
        proof {
            if !c0.known(symbol@) && (sid as int) < c0.syms@.len() {
                assert(c1.syms@[sid as int] == c1.syms@.subrange(0, c0.syms@.len() as int)[sid as int]);
                assert(c0.syms@[sid as int]@ == symbol@);
            }
            assert forall|s: Seq<char>| #[trigger] c1.known(s) == (c0.known(s) || s == symbol@) by {
                if s == symbol@ {
                    assert(c1.syms@[sid as int]@ == symbol@);
                }
                if c0.known(s) {
                    let id = c0.sym_pos(s);
                    if !c0.known(symbol@) {
                        assert(c1.syms@[id] == c1.syms@.subrange(0, c0.syms@.len() as int)[id]);
                    }
                    assert(c1.syms@[id]@ == s);
                }
                if c1.known(s) && s != symbol@ {
                    let id = c1.sym_pos(s);
                    if !c0.known(symbol@) {
                        if id < c0.syms@.len() {
                            assert(c1.syms@[id] == c1.syms@.subrange(0, c0.syms@.len() as int)[id]);
                            assert(c0.syms@[id]@ == s);
                        } else {
                            assert(id == c0.syms@.len());
                            assert(c1.syms@[id]@ == symbol@);
                        }
                    } else {
                        assert(c0.syms@[id]@ == s);
                    }
                }
            }
            assert forall|s: Seq<char>, l: u16| #[trigger] c1.rights(s, l) == c0.rights(s, l) by {
                if c0.known(s) {
                    let id = c0.sym_pos(s);
                    if !c0.known(symbol@) {
                        assert(c1.syms@[id] == c1.syms@.subrange(0, c0.syms@.len() as int)[id]);
                        assert(c1.lefts@[id] == c1.lefts@.subrange(0, c0.syms@.len() as int)[id]);
                    }
                    c1.lemma_sym_pos(id);
                } else if s == symbol@ {
                    c1.lemma_sym_pos(sid as int);
                }
            }
        }
        let li = #[verifier::truncate] (i as u16);
        let lj = #[verifier::truncate] (j as u16);
        match Self::find_left(&self.lefts[sid as usize], li) {
            Some(e) => {
                let p = first_at_least_in(&self.lefts[sid as usize][e].rights, lj);
                let found = p < self.lefts[sid as usize][e].rights.len()
                    && self.lefts[sid as usize][e].rights[p] == lj;
                if !found {
                    self.lefts[sid as usize][e].rights.insert(p, lj);
                }
                proof {
                    let entries0 = c1.lefts@[sid as int]@;
                    Self::lemma_rights_in(entries0, e as int);
                    lemma_with_right(entries0[e as int].rights@, lj);
                    if !found {
                        let entries1 = self.lefts@[sid as int]@;
                        assert forall|e1: int, e2: int|
                            0 <= e1 < e2 < entries1.len() implies (#[trigger] entries1[e1]).left != (
                        #[trigger] entries1[e2]).left by {
                            assert(entries1[e1].left == entries0[e1].left);
                            assert(entries1[e2].left == entries0[e2].left);
                        }
                        Self::lemma_rights_in(entries1, e as int);
                        assert forall|l: u16| l != li implies #[trigger] Self::rights_in(entries1, l)
                            == Self::rights_in(entries0, l) by {
                            if exists|q: int| 0 <= q < entries0.len() && entries0[q].left == l {
                                let q = choose|q: int| 0 <= q < entries0.len() && entries0[q].left == l;
                                Self::lemma_rights_in(entries0, q);
                                assert(entries1[q] == entries0[q]);
                                Self::lemma_rights_in(entries1, q);
                            } else {
                                assert forall|q: int| 0 <= q < entries1.len() implies entries1[q].left != l by {
                                    assert(entries1[q].left == entries0[q].left);
                                }
                            }
                        }
                    }
                }
            },
            None => {
                let mut rights: Vec<u16> = Vec::new();
                rights.push(lj);
                self.lefts[sid as usize].push(LeftEntry { left: li, rights });
                proof {
                    let entries0 = c1.lefts@[sid as int]@;
                    let entries1 = self.lefts@[sid as int]@;
                    assert(entries1 =~= entries0.push(LeftEntry { left: li, rights }));
                    assert forall|e1: int, e2: int|
                        0 <= e1 < e2 < entries1.len() implies (#[trigger] entries1[e1]).left != (
                    #[trigger] entries1[e2]).left by {
                        if e2 == entries0.len() {
                            assert(entries1[e1] == entries0[e1]);
                        }
                    }
                    Self::lemma_rights_in(entries1, entries0.len() as int);
                    assert(rights@ =~= seq![lj]);
                    assert(Self::rights_in(entries0, li) =~= Seq::<u16>::empty());
                    assert(with_right(Seq::<u16>::empty(), lj) =~= seq![lj]);
                    assert forall|l: u16| l != li implies #[trigger] Self::rights_in(entries1, l)
                        == Self::rights_in(entries0, l) by {
                        if exists|q: int| 0 <= q < entries0.len() && entries0[q].left == l {
                            let q = choose|q: int| 0 <= q < entries0.len() && entries0[q].left == l;
                            Self::lemma_rights_in(entries0, q);
                            assert(entries1[q] == entries0[q]);
                            Self::lemma_rights_in(entries1, q);
                        } else {
                            assert forall|q: int| 0 <= q < entries1.len() implies entries1[q].left != l by {
                                if q < entries0.len() {
                                    assert(entries1[q] == entries0[q]);
                                }
                            }
                        }
                    }
                }
            },
        }
        let ghost c2 = *self;
        proof {
            c1.lemma_sym_pos(sid as int);
            c2.lemma_sym_pos(sid as int);
            assert forall|s: Seq<char>, l: u16| #[trigger] c2.rights(s, l) == if s == symbol@ && l
                == li {
                with_right(c1.rights(s, l), lj)
            } else {
                c1.rights(s, l)
            } by {
                if c1.known(s) && s != symbol@ {
                    let id = c1.sym_pos(s);
                    assert(id != sid);
                    assert(c2.lefts@[id] == c1.lefts@[id]);
                    c2.lemma_sym_pos(id);
                }
            }
            assert forall|s: Seq<char>| #[trigger] c2.known(s) == c1.known(s) by {}
        }
        self.m[i][j].push(item);
        proof {
            assert(self.syms == c2.syms);
            assert(self.lefts == c2.lefts);
            assert forall|s: Seq<char>, l: u16| #[trigger] self.rights(s, l) == c2.rights(s, l) by {}
            assert forall|s: Seq<char>| #[trigger] self.known(s) == c2.known(s) by {}
        }
    }

    /// `(symbol, i, j)` has been recorded.
    pub fn has(&self, symbol: &str, i: usize, j: usize) -> (r: bool)
        requires
            self.inv(),
        ensures
            r == self.rights(symbol@, i as u16).contains(j as u16),
    {
        match self.sym_id_lookup(symbol) {
            None => false,
            Some(sid) => {
                proof {
                    self.lemma_sym_pos(sid as int);
                }
                let li = #[verifier::truncate] (i as u16);
                let lj = #[verifier::truncate] (j as u16);
                match Self::find_left(&self.lefts[sid as usize], li) {
                    None => false,
                    Some(e) => {
                        proof {
                            Self::lemma_rights_in(self.lefts@[sid as int]@, e as int);
                        }
                        let r = contains_u16(&self.lefts[sid as usize][e].rights, lj);
                        assert(self.rights(symbol@, li) == self.lefts@[sid as int]@[e as int].rights@);
                        r
                    },
                }
            },
        }
    }

    /// The right ends recorded for `symbol` at left end `left`, in
    /// increasing order.
    pub fn rights_for(&self, symbol: &str, left: usize) -> (r: &[u16])
        requires
            self.inv(),
        ensures
            r@ == self.rights(symbol@, left as u16),
            increasing(r@),
    {
        proof {
            self.lemma_rights_increasing(symbol@, left as u16);
        }
        if let Some(sid) = self.sym_id_lookup(symbol) {
            proof {
                self.lemma_sym_pos(sid as int);
            }
            if let Some(e) = Self::find_left(&self.lefts[sid as usize], left as u16) {
                proof {
                    Self::lemma_rights_in(self.lefts@[sid as int]@, e as int);
                }
                return self.lefts[sid as usize][e].rights.as_slice();
            }
        }
        let empty: &[u16] = &[];
        assert(empty@ =~= Seq::<u16>::empty());
        empty
    }

    /// Something has been recorded for `symbol` at left end `left`.
    pub fn has_any_at(&self, symbol: &str, left: usize) -> (r: bool)
        requires
            self.inv(),
        ensures
            r == (self.rights(symbol@, left as u16).len() > 0),
    {
        if let Some(sid) = self.sym_id_lookup(symbol) {
            proof {
                self.lemma_sym_pos(sid as int);
            }
            match Self::find_left(&self.lefts[sid as usize], left as u16) {
                Some(e) => {
                    proof {
                        Self::lemma_rights_in(self.lefts@[sid as int]@, e as int);
                    }
                    true
                },
                None => false,
            }
        } else {
            false
        }
    }
}

} // verus!
verus! {

// ------------------------------------------------------------------- visit

/// The spans of width `span` that start at or after `l` and end at or
/// before `r`, from left to right.
pub open spec fn span_row(l: int, r: int, span: int) -> Seq<(usize, usize)> {
    Seq::new(
        if r - span >= l {
            (r - span - l + 1) as nat
        } else {
            0
        },
        |t: int| ((l + t) as usize, (l + t + span) as usize),
    )
}

/// The spans within `[l, r]` of widths `from` up to `r - x`, narrowest
/// first and each width from left to right.
pub open spec fn visit_order(from: int, l: int, r: int, x: int) -> Seq<(usize, usize)>
    decreases r - x + 1 - from,
{
    if from > r - x {
        Seq::empty()
    } else {
        span_row(l, r, from) + visit_order(from + 1, l, r, x)
    }
}

/// The spans to visit bottom-up: widths from `from` to `r - x`, and for
/// each width the spans `(k, k + width)` with `l <= k <= r - width`.
pub fn visit(from: usize, l: usize, r: usize, x: usize) -> (v: Vec<(usize, usize)>)
    requires
        x <= r,
    ensures
        v@ == visit_order(from as int, l as int, r as int, x as int),
{
    let mut v: Vec<(usize, usize)> = Vec::new();
    let top = r - x;
    if from > top {
        return v;
    }
    let mut span = from;
    assert(v@ + visit_order(span as int, l as int, r as int, x as int) =~= visit_order(
        from as int,
        l as int,
        r as int,
        x as int,
    ));
    loop
        invariant_except_break
            from <= span <= top,
            top == r - x,
            v@ + visit_order(span as int, l as int, r as int, x as int) == visit_order(
                from as int,
                l as int,
                r as int,
                x as int,
            ),
        ensures
            v@ == visit_order(from as int, l as int, r as int, x as int),
        decreases top - span,
    {
        let ghost base = v@;
        let ghost row = span_row(l as int, r as int, span as int);
        if l <= r - span {
            let hi = r - span;
            let mut k = l;
            loop
                invariant_except_break
                    l <= k <= hi,
                    hi == r - span,
                    row == span_row(l as int, r as int, span as int),
                    v@ == base + row.take(k - l),
                ensures
                    v@ == base + row,
                decreases hi - k,
            {
                v.push((k, k + span));
                assert(row.take(k - l + 1) =~= row.take(k - l).push((k, (k + span) as usize)));
                if k == hi {
                    assert(row.take(k - l + 1) =~= row);
                    break;
                }
                k += 1;
            }
        } else {
            assert(row =~= Seq::<(usize, usize)>::empty());
            assert(v@ =~= base + row);
        }
        assert(visit_order(span as int, l as int, r as int, x as int) == row + visit_order(
            span + 1,
            l as int,
            r as int,
            x as int,
        ));
        if span == top {
            assert(visit_order(span + 1, l as int, r as int, x as int) =~= Seq::<
                (usize, usize),
            >::empty());
            assert(v@ =~= visit_order(from as int, l as int, r as int, x as int));
            break;
        }
        assert(v@ + visit_order(span + 1, l as int, r as int, x as int) =~= base + visit_order(
            span as int,
            l as int,
            r as int,
            x as int,
        ));
        span += 1;
    }
    v
}

} // verus!
verus! {

impl Chart {
    /// When every recorded symbol is one of `gs`, there are at most as many
    /// symbols as `gs` has.
    pub proof fn lemma_symbols_bound(&self, gs: Seq<Seq<char>>)
        requires
            self.inv(),
            forall|s: Seq<char>| #[trigger] self.known(s) ==> gs.contains(s),
        ensures
            self.num_symbols() <= gs.len(),
    {
        let v = crate::text::string_views(self.syms@);
        assert(v.no_duplicates()) by {
            assert forall|a: int, b: int| 0 <= a < v.len() && 0 <= b < v.len() && a != b implies v[a]
                != v[b] by {
                if a < b {
                    assert(self.syms@[a]@ != self.syms@[b]@);
                } else {
                    assert(self.syms@[b]@ != self.syms@[a]@);
                }
            }
        }
        assert forall|i: int| 0 <= i < v.len() implies gs.contains(#[trigger] v[i]) by {
            assert(v[i] == self.syms@[i]@);
            assert(self.known(v[i]));
        }
        crate::text::lemma_distinct_within(v, gs);
    }
}

// ------------------------------------------------------------- soundness

/// The chart records `s` over `[l, r)`.
pub open spec fn chart_has(chart: Chart, s: Seq<char>, l: int, r: int) -> bool {
    chart.rights(s, l as u16).contains(r as u16)
}

/// The position that matching the first `d` symbols of `rhs` from `start`
/// reaches: a word must be the next input word, a nonterminal must come
/// with the span from the current position that the chart records for it.
pub open spec fn reach(
    rhs: Seq<SymbolView>,
    spans: Seq<Option<Span>>,
    input: Seq<Seq<char>>,
    chart: Chart,
    start: int,
    d: nat,
) -> Option<int>
    decreases d,
{
    if d == 0 {
        Some(start)
    } else {
        match reach(rhs, spans, input, chart, start, (d - 1) as nat) {
            None => None,
            Some(p) => match rhs[d - 1] {
                SymbolView::T(w) => if 0 <= p < input.len() && input[p] == w {
                    Some(p + 1)
                } else {
                    None
                },
                SymbolView::NT(s, _) => match spans[d - 1] {
                    Some(sp) => if sp.left == p && sp.right >= 0 && chart_has(
                        chart,
                        s,
                        p,
                        sp.right as int,
                    ) {
                        Some(sp.right as int)
                    } else {
                        None
                    },
                    None => None,
                },
            },
        }
    }
}

/// The right-hand side of rule `r`.
pub open spec fn rule_rhs(g: Grammar, r: int) -> Seq<SymbolView> {
    syms_view(g.rules@[r].rhs@)
}

/// The category of the left-hand side of rule `r`.
pub open spec fn category(g: Grammar, r: int) -> Seq<char> {
    g.rules@[r].lhs@->NT_0
}

/// `s` is the category of some rule's left-hand side.
pub open spec fn is_category(g: Grammar, s: Seq<char>) -> bool {
    exists|r: int| 0 <= r < g.rules@.len() && #[trigger] category(g, r) == s
}

/// A complete item of cell `(i, j)`: its rule's whole right-hand side has
/// been matched from `i` to `j`.
pub open spec fn item_complete(g: Grammar, item: Item, i: int, j: int) -> bool {
    &&& item.rule_idx < g.rules@.len()
    &&& item.left == i
    &&& item.right == j
    &&& item.dot == rule_rhs(g, item.rule_idx as int).len()
    &&& item.tail_spans@.len() == rule_rhs(g, item.rule_idx as int).len()
}

/// A complete item whose words match the input and whose nonterminals
/// span recorded chart entries, end to end from `i` to `j`.
pub open spec fn item_sound(g: Grammar, input: Seq<Seq<char>>, chart: Chart, item: Item, i: int, j: int) -> bool {
    &&& item_complete(g, item, i, j)
    &&& reach(
        rule_rhs(g, item.rule_idx as int),
        item.tail_spans@,
        input,
        chart,
        i,
        rule_rhs(g, item.rule_idx as int).len(),
    ) == Some(j)
}

/// Every item of the chart is sound, every recorded entry `(s, l, r)` has
/// an item of category `s` in cell `(l, r)`, and every recorded symbol is
/// a category of the grammar.
pub open spec fn chart_sound(g: Grammar, input: Seq<Seq<char>>, chart: Chart) -> bool {
    &&& forall|i: int, j: int, k: int|
        0 <= i <= chart.size() && 0 <= j <= chart.size() && 0 <= k < chart.cell(i, j).len()
            ==> item_sound(g, input, chart, #[trigger] chart.cell(i, j)[k], i, j)
    &&& forall|s: Seq<char>, l: int, r: int|
        0 <= l <= chart.size() && 0 <= r <= chart.size() && #[trigger] chart_has(chart, s, l, r)
            ==> exists|k: int|
            0 <= k < chart.cell(l, r).len() && category(g, chart.cell(l, r)[k].rule_idx as int)
                == s
    &&& forall|s: Seq<char>| #[trigger] chart.known(s) ==> is_category(g, s)
}

/// Entries recorded in `c1` are still recorded in `c2`.
pub open spec fn index_grows(c1: Chart, c2: Chart) -> bool {
    forall|s: Seq<char>, l: u16, r: u16| #[trigger]
        c1.rights(s, l).contains(r) ==> c2.rights(s, l).contains(r)
}

/// Matching stays valid as the chart records more entries.
pub proof fn lemma_reach_grows(
    rhs: Seq<SymbolView>,
    spans: Seq<Option<Span>>,
    input: Seq<Seq<char>>,
    c1: Chart,
    c2: Chart,
    start: int,
    d: nat,
)
    requires
        index_grows(c1, c2),
        reach(rhs, spans, input, c1, start, d) is Some,
    ensures
        reach(rhs, spans, input, c2, start, d) == reach(rhs, spans, input, c1, start, d),
    decreases d,
{
    if d > 0 {
        lemma_reach_grows(rhs, spans, input, c1, c2, start, (d - 1) as nat);
        let p = reach(rhs, spans, input, c1, start, (d - 1) as nat)->0;
        if let SymbolView::NT(s, _) = rhs[d - 1] {
            if let Some(sp) = spans[d - 1] {
                assert(c1.rights(s, p as u16).contains(sp.right as int as u16));
            }
        }
    }
}

/// Matching a run of words.
pub proof fn lemma_reach_words(
    rhs: Seq<SymbolView>,
    spans: Seq<Option<Span>>,
    input: Seq<Seq<char>>,
    chart: Chart,
    start: int,
    d0: nat,
    d: nat,
)
    requires
        d0 <= d <= rhs.len(),
        reach(rhs, spans, input, chart, start, d0) matches Some(p) && 0 <= p && p + (d - d0)
            <= input.len(),
        forall|k: int|
            d0 <= k < d ==> rhs[k] == SymbolView::T(
                input[reach(rhs, spans, input, chart, start, d0)->0 + (k - d0)],
            ),
    ensures
        reach(rhs, spans, input, chart, start, d) == Some(
            reach(rhs, spans, input, chart, start, d0)->0 + (d - d0),
        ),
    decreases d - d0,
{
    if d > d0 {
        lemma_reach_words(rhs, spans, input, chart, start, d0, (d - 1) as nat);
    }
}

} // verus!
verus! {

/// Adding a sound item with its category keeps a chart sound.
pub proof fn lemma_add_sound(
    g: Grammar,
    input: Seq<Seq<char>>,
    c0: Chart,
    c1: Chart,
    item: Item,
    i: int,
    j: int,
    sym: Seq<char>,
)
    requires
        c0.size() < 65536,
        chart_sound(g, input, c0),
        0 <= i <= c0.size(),
        0 <= j <= c0.size(),
        item_sound(g, input, c0, item, i, j),
        sym == category(g, item.rule_idx as int),
        c1.size() == c0.size(),
        c1.cell(i, j) == c0.cell(i, j).push(item),
        forall|a: int, b: int|
            0 <= a <= c0.size() && 0 <= b <= c0.size() && !(a == i && b == j) ==> #[trigger] c1.cell(
                a,
                b,
            ) == c0.cell(a, b),
        forall|s: Seq<char>| #[trigger] c1.known(s) == (c0.known(s) || s == sym),
        c0.inv(),
        forall|s: Seq<char>, l: u16| #[trigger]
            c1.rights(s, l) == if s == sym && l == i as u16 {
                with_right(c0.rights(s, l), j as u16)
            } else {
                c0.rights(s, l)
            },
    ensures
        chart_sound(g, input, c1),
        index_grows(c0, c1),
        chart_has(c1, sym, i, j),
{
    c0.lemma_rights_increasing(sym, i as u16);
    lemma_with_right(c0.rights(sym, i as u16), j as u16);
    assert forall|s: Seq<char>, l: u16, r: u16| #[trigger] c0.rights(s, l).contains(r) implies c1.rights(
        s,
        l,
    ).contains(r) by {
        if s == sym && l == i as u16 {
            assert(with_right(c0.rights(sym, i as u16), j as u16).contains(r));
        }
    }
    assert(c1.rights(sym, i as u16).contains(j as u16)) by {
        assert(with_right(c0.rights(sym, i as u16), j as u16).contains(j as u16));
    }
    assert forall|a: int, b: int, k: int|
        0 <= a <= c1.size() && 0 <= b <= c1.size() && 0 <= k < c1.cell(a, b).len() implies item_sound(
        g,
        input,
        c1,
        #[trigger] c1.cell(a, b)[k],
        a,
        b,
    ) by {
        let it = c1.cell(a, b)[k];
        let rhs = rule_rhs(g, it.rule_idx as int);
        if a == i && b == j && k == c0.cell(i, j).len() {
            assert(it == item);
        } else {
            assert(it == c0.cell(a, b)[k]);
        }
        lemma_reach_grows(rhs, it.tail_spans@, input, c0, c1, a, rhs.len());
    }
    assert forall|s: Seq<char>, l: int, r: int|
        0 <= l <= c1.size() && 0 <= r <= c1.size() && #[trigger] chart_has(c1, s, l, r) implies exists|k: int|
        0 <= k < c1.cell(l, r).len() && category(g, c1.cell(l, r)[k].rule_idx as int) == s by {
        if chart_has(c0, s, l, r) {
            let k = choose|k: int|
                0 <= k < c0.cell(l, r).len() && category(g, c0.cell(l, r)[k].rule_idx as int) == s;
            if l == i && r == j {
                assert(c1.cell(l, r)[k] == c0.cell(l, r)[k]);
            } else {
                assert(c1.cell(l, r) == c0.cell(l, r));
            }
        } else {
            // the entry is the new one: (sym, i, j)
            if s == sym && l as u16 == i as u16 {
                assert(with_right(c0.rights(sym, i as u16), j as u16).contains(r as u16));
            }
            assert(s == sym && l as u16 == i as u16);
            assert(r as u16 == j as u16);
            assert(l == i && r == j);
            assert(c1.cell(i, j)[c0.cell(i, j).len() as int] == item);
        }
    }
    assert forall|s: Seq<char>| #[trigger] c1.known(s) implies is_category(g, s) by {
        if s == sym {
            assert(category(g, item.rule_idx as int) == sym);
        }
    }
}

} // verus!
verus! {

/// Rule `r`, flat, fits in the input from `a` and ends at `b`, its words
/// after the first matching the input there.
pub open spec fn flat_fits(g: Grammar, input: Seq<Seq<char>>, n: int, r: usize, a: int, b: int) -> bool {
    let rhs = rule_rhs(g, r as int);
    &&& a + rhs.len() <= n
    &&& b == a + rhs.len()
    &&& forall|k: int| 1 <= k < rhs.len() ==> rhs[k] == SymbolView::T(input[a + k])
}

/// The rules of `lst` that fit from `a` to `b`, in order.
pub open spec fn fits_of(lst: Seq<usize>, g: Grammar, input: Seq<Seq<char>>, n: int, a: int, b: int) -> Seq<
    usize,
>
    decreases lst.len(),
{
    if lst.len() == 0 {
        Seq::empty()
    } else {
        let rest = fits_of(lst.drop_last(), g, input, n, a, b);
        if flat_fits(g, input, n, lst.last(), a, b) {
            rest.push(lst.last())
        } else {
            rest
        }
    }
}

/// The flat rules that `init` applies over `[a, b)`: those listed under the
/// word at `a` that fit there, in order.
pub open spec fn flat_hits(g: Grammar, input: Seq<Seq<char>>, n: int, a: int, b: int) -> Seq<usize> {
    if 0 <= a < n {
        fits_of(g.flat_by_first_word.lookup(input[a]), g, input, n, a, b)
    } else {
        Seq::empty()
    }
}

/// `new` is `old` followed by one complete item over `[a, b)` for each rule
/// of `rules`, in order, with fresh tail spans.
pub open spec fn extended_by(
    old: Seq<Item>,
    new: Seq<Item>,
    rules: Seq<usize>,
    g: Grammar,
    a: int,
    b: int,
) -> bool {
    &&& new.len() == old.len() + rules.len()
    &&& new.take(old.len() as int) == old
    &&& forall|t: int|
        0 <= t < rules.len() ==> {
            let it = #[trigger] new[old.len() + t];
            &&& it.rule_idx == rules[t]
            &&& it.left == a
            &&& it.right == b
            &&& it.dot == b - a
            &&& it.tail_spans@ == initial_spans(rule_rhs(g, rules[t] as int))
        }
}

/// Every rule's right-hand side fits next to an input of `n` words.
pub open spec fn rhs_lengths_fit(g: Grammar, n: int) -> bool {
    forall|r: int| 0 <= r < g.rules@.len() ==> (#[trigger] g.rules@[r]).rhs@.len() + n <= usize::MAX
}

pub open spec fn symbols_are_categories(g: Grammar, chart: Chart) -> bool {
    forall|s: Seq<char>| #[trigger] chart.known(s) ==> is_category(g, s)
}

/// Flat rules are all words.
proof fn lemma_flat_words(g: Grammar, r: int)
    requires
        g.wf(),
        0 <= r < g.rules@.len(),
        crate::grammar::lands_in_flat(g.rules@[r]),
    ensures
        forall|k: int| 0 <= k < rule_rhs(g, r).len() ==> (#[trigger] rule_rhs(g, r)[k]) is T,
        rule_rhs(g, r).len() > 0,
{
    assert(g.rules@[r].rhs@.len() > 0 && g.rules@[r].arity == crate::grammar::count_nt(
        syms_view(g.rules@[r].rhs@),
    ));
    crate::grammar::lemma_count_nt_zero(rule_rhs(g, r));
}

/// Every flat rule that `init` applies has a nonterminal on its left-hand
/// side.
pub open spec fn flat_hits_nt(g: Grammar, input: Seq<Seq<char>>, n: int) -> bool {
    forall|a: int, b: int, q: int|
        0 <= a < n && 0 <= q < flat_hits(g, input, n, a, b).len() ==> (#[trigger] g.rules@[flat_hits(
            g,
            input,
            n,
            a,
            b,
        )[q] as int]).lhs@ is NT
}

/// The symbols that the chart knows and the categories of the flat rules
/// that `init` applies are at most 65535 (the chart's symbol ids are
/// `u16`), as `gs` lists them.
pub open spec fn flat_room_in(g: Grammar, input: Seq<Seq<char>>, n: int, chart: Chart, gs: Seq<Seq<char>>) -> bool {
    &&& gs.len() <= 65535
    &&& forall|s: Seq<char>| #[trigger] chart.known(s) ==> gs.contains(s)
    &&& forall|a: int, b: int, q: int|
        0 <= a < n && 0 <= q < flat_hits(g, input, n, a, b).len() ==> gs.contains(
            category(g, #[trigger] flat_hits(g, input, n, a, b)[q] as int),
        )
}

/// Some list of at most 65535 symbols holds the symbols that the chart
/// knows and the categories of the flat rules that `init` applies.
pub open spec fn flat_room(g: Grammar, input: Seq<Seq<char>>, n: int, chart: Chart) -> bool {
    exists|gs: Seq<Seq<char>>| flat_room_in(g, input, n, chart, gs)
}

/// Category `s` is that of a flat rule that `init` applies over `[a, b)`.
pub open spec fn is_flat_entry(g: Grammar, input: Seq<Seq<char>>, n: int, s: Seq<char>, a: int, b: int) -> bool {
    exists|q: int|
        0 <= q < flat_hits(g, input, n, a, b).len() && category(
            g,
            #[trigger] flat_hits(g, input, n, a, b)[q] as int,
        ) == s
}

/// A chart whose known symbols are among at most 65535 listed ones has room
/// for another listed symbol.
proof fn lemma_room_in(chart: Chart, gs: Seq<Seq<char>>, sym: Seq<char>)
    requires
        chart.inv(),
        gs.len() <= 65535,
        forall|s: Seq<char>| #[trigger] chart.known(s) ==> gs.contains(s),
        gs.contains(sym),
        !chart.known(sym),
    ensures
        chart.num_symbols() < 65535,
{
    let k = choose|k: int| 0 <= k < gs.len() && gs[k] == sym;
    let gs2 = gs.remove(k);
    assert forall|s: Seq<char>| #[trigger] chart.known(s) implies gs2.contains(s) by {
        let w = choose|w: int| 0 <= w < gs.len() && gs[w] == s;
        assert(w != k);
        if w < k {
            assert(gs2[w] == gs[w]);
        } else {
            assert(gs2[w - 1] == gs[w]);
        }
    }
    chart.lemma_symbols_bound(gs2);
}

/// A listed rule that fits is among the rules of the list that fit.
proof fn lemma_fits_has(lst: Seq<usize>, g: Grammar, input: Seq<Seq<char>>, n: int, a: int, b: int, t: int)
    requires
        0 <= t < lst.len(),
        flat_fits(g, input, n, lst[t], a, b),
    ensures
        fits_of(lst, g, input, n, a, b).contains(lst[t]),
    decreases lst.len(),
{
    let f = fits_of(lst, g, input, n, a, b);
    if t == lst.len() - 1 {
        assert(f[f.len() - 1] == lst[t]);
    } else {
        assert(lst.drop_last()[t] == lst[t]);
        lemma_fits_has(lst.drop_last(), g, input, n, a, b, t);
        let r = fits_of(lst.drop_last(), g, input, n, a, b);
        let w = choose|w: int| 0 <= w < r.len() && r[w] == lst[t];
        assert(f[w] == r[w]);
    }
}

/// Checks that the words of rule `fi` after its first match the input from `i`.
fn rest_words_match(input: &[String], i: usize, rhs: &Vec<Symbol>) -> (ok: bool)
    requires
        forall|k: int| 0 <= k < rhs@.len() ==> (#[trigger] rhs@[k])@ is T,
        i + rhs@.len() <= input@.len(),
    ensures
        ok == forall|k: int|
            1 <= k < rhs@.len() ==> syms_view(rhs@)[k] == SymbolView::T(input@[i + k]@),
{
    let len = input.len();
    let mut k: usize = 1;
    while k < rhs.len()
        invariant
            1 <= k,
            len == input@.len(),
            forall|q: int| 0 <= q < rhs@.len() ==> (#[trigger] rhs@[q])@ is T,
            i + rhs@.len() <= input@.len(),
            forall|q: int| 1 <= q < k && q < rhs@.len() ==> syms_view(rhs@)[q] == SymbolView::T(
                input@[i + q]@,
            ),
        decreases rhs.len() - k,
    {
        assert(rhs@[k as int]@ is T);
        assert(i + k < input@.len());
        let w = rhs[k].word();
        if !str_eq(w, input[i + k].as_str()) {
            assert(syms_view(rhs@)[k as int] == rhs@[k as int]@);
            assert(syms_view(rhs@)[k as int] != SymbolView::T(input@[i + k]@));
            return false;
        }
        k += 1;
    }
    true
}

/// Fills the passive chart with the flat rules that match the input: for
/// every position `i < n` and every flat rule listed under the word at
/// `i` whose words all match the input from `i` within the first `n`
/// words, an item over `[i, i + len)`, recorded under the rule's category;
/// the chart records nothing else. It needs a nonterminal on the left of
/// just those rules, and room for their categories among the chart's
/// symbols.
pub fn init(
    input: &[String],
    n: usize,
    _active_chart: &mut Chart,
    passive_chart: &mut Chart,
    grammar: &Grammar,
)
    requires
        n <= input@.len(),
        grammar.wf(),
        flat_hits_nt(*grammar, crate::text::string_views(input@), n as int),
        flat_room(*grammar, crate::text::string_views(input@), n as int, *old(passive_chart)),
        rhs_lengths_fit(*grammar, n as int),
        old(passive_chart).inv(),
        n <= old(passive_chart).size(),
        symbols_are_categories(*grammar, *old(passive_chart)),
    ensures
        *final(_active_chart) == *old(_active_chart),
        final(passive_chart).inv(),
        final(passive_chart).size() == old(passive_chart).size(),
        symbols_are_categories(*grammar, *final(passive_chart)),
        index_grows(*old(passive_chart), *final(passive_chart)),
        forall|a: int, b: int|
            0 <= a <= old(passive_chart).size() && 0 <= b <= old(passive_chart).size()
                ==> extended_by(
                old(passive_chart).cell(a, b),
                #[trigger] final(passive_chart).cell(a, b),
                flat_hits(*grammar, crate::text::string_views(input@), n as int, a, b),
                *grammar,
                a,
                b,
            ),
        old(passive_chart).size() < 65536 && chart_sound(
            *grammar,
            crate::text::string_views(input@),
            *old(passive_chart),
        ) ==> chart_sound(*grammar, crate::text::string_views(input@), *final(passive_chart)),
        forall|a: int, b: int, q: int|
            0 <= a <= old(passive_chart).size() && 0 <= b <= old(passive_chart).size() && 0 <= q
                < flat_hits(*grammar, crate::text::string_views(input@), n as int, a, b).len()
                ==> chart_has(
                *final(passive_chart),
                category(
                    *grammar,
                    #[trigger] flat_hits(*grammar, crate::text::string_views(input@), n as int, a, b)[q]
                        as int,
                ),
                a,
                b,
            ),
        flat_complete(*grammar, crate::text::string_views(input@), *final(passive_chart), n as int),
        forall|s: Seq<char>, l: u16, r: u16| #[trigger]
            final(passive_chart).rights(s, l).contains(r) ==> old(passive_chart).rights(s, l).contains(
                r,
            ) || exists|a: int, b: int|
                l == a as u16 && r == b as u16 && is_flat_entry(
                    *grammar,
                    crate::text::string_views(input@),
                    n as int,
                    s,
                    a,
                    b,
                ),
{
    let ghost g = *grammar;
    let ghost inp = crate::text::string_views(input@);
    let ghost c0 = *passive_chart;
    let ghost size = c0.size();
    let ghost sound0 = size < 65536 && chart_sound(g, inp, c0);
    let ghost gs = choose|gs: Seq<Seq<char>>| flat_room_in(g, inp, n as int, c0, gs);
    let mut i: usize = 0;
    assert forall|a: int, b: int| 0 <= a <= size && 0 <= b <= size implies extended_by(
        c0.cell(a, b),
        #[trigger] passive_chart.cell(a, b),
        Seq::empty(),
        g,
        a,
        b,
    ) by {
        assert(c0.cell(a, b).take(c0.cell(a, b).len() as int) =~= c0.cell(a, b));
    }
    while i < n
        invariant
            i <= n,
            n <= input@.len(),
            g == *grammar,
            inp == crate::text::string_views(input@),
            g.wf(),
            flat_hits_nt(g, inp, n as int),
            flat_room_in(g, inp, n as int, c0, gs),
            forall|s: Seq<char>| #[trigger] passive_chart.known(s) ==> gs.contains(s),
            forall|s: Seq<char>, l: u16, r: u16| #[trigger]
                passive_chart.rights(s, l).contains(r) ==> c0.rights(s, l).contains(r) || exists|
                    a: int,
                    b: int,
                | l == a as u16 && r == b as u16 && is_flat_entry(g, inp, n as int, s, a, b),
            forall|a: int, b: int, q: int|
                0 <= a < i && 0 <= b <= size && 0 <= q < flat_hits(g, inp, n as int, a, b).len()
                    ==> chart_has(
                    *passive_chart,
                    category(g, #[trigger] flat_hits(g, inp, n as int, a, b)[q] as int),
                    a,
                    b,
                ),
            rhs_lengths_fit(g, n as int),
            passive_chart.inv(),
            passive_chart.size() == size,
            n <= size,
            symbols_are_categories(g, *passive_chart),
            index_grows(c0, *passive_chart),
            sound0 == (size < 65536 && chart_sound(g, inp, c0)),
            sound0 ==> chart_sound(g, inp, *passive_chart),
            forall|a: int, b: int|
                0 <= a <= size && 0 <= b <= size ==> extended_by(
                    c0.cell(a, b),
                    #[trigger] passive_chart.cell(a, b),
                    if a < i {
                        flat_hits(g, inp, n as int, a, b)
                    } else {
                        Seq::empty()
                    },
                    g,
                    a,
                    b,
                ),
        decreases n - i,
    {
        let ghost ci = *passive_chart;
        proof {
            assert(input@[i as int]@ == inp[i as int]);
        }
        match grammar.flat_by_first_word.get(input[i].as_str()) {
            Some(matching) => {
                let ghost lst = matching@;
                let mut t: usize = 0;
                while t < matching.len()
                    invariant
                        t <= matching@.len(),
                        lst == matching@,
                        lst == g.flat_by_first_word.lookup(inp[i as int]),
                        i < n,
                        n <= input@.len(),
                        g == *grammar,
                        inp == crate::text::string_views(input@),
                        g.wf(),
                        flat_hits_nt(g, inp, n as int),
                        flat_room_in(g, inp, n as int, c0, gs),
                        forall|s: Seq<char>| #[trigger] passive_chart.known(s) ==> gs.contains(s),
                        forall|s: Seq<char>, l: u16, r: u16| #[trigger]
                            passive_chart.rights(s, l).contains(r) ==> c0.rights(s, l).contains(r)
                                || exists|a: int, b: int|
                                l == a as u16 && r == b as u16 && is_flat_entry(
                                    g,
                                    inp,
                                    n as int,
                                    s,
                                    a,
                                    b,
                                ),
                        forall|a: int, b: int, q: int|
                            0 <= a < i && 0 <= b <= size && 0 <= q < flat_hits(
                                g,
                                inp,
                                n as int,
                                a,
                                b,
                            ).len() ==> chart_has(
                                *passive_chart,
                                category(g, #[trigger] flat_hits(g, inp, n as int, a, b)[q] as int),
                                a,
                                b,
                            ),
                        forall|b: int, q: int|
                            0 <= b <= size && 0 <= q < fits_of(
                                lst.take(t as int),
                                g,
                                inp,
                                n as int,
                                i as int,
                                b,
                            ).len() ==> chart_has(
                                *passive_chart,
                                category(
                                    g,
                                    #[trigger] fits_of(lst.take(t as int), g, inp, n as int, i as int, b)[q]
                                        as int,
                                ),
                                i as int,
                                b,
                            ),
                        rhs_lengths_fit(g, n as int),
                        passive_chart.inv(),
                        passive_chart.size() == size,
                        n <= size,
                        symbols_are_categories(g, *passive_chart),
                        index_grows(c0, *passive_chart),
                        sound0 == (size < 65536 && chart_sound(g, inp, c0)),
                        sound0 ==> chart_sound(g, inp, *passive_chart),
                        forall|a: int, b: int|
                            0 <= a <= size && 0 <= b <= size ==> extended_by(
                                c0.cell(a, b),
                                #[trigger] passive_chart.cell(a, b),
                                if a < i {
                                    flat_hits(g, inp, n as int, a, b)
                                } else if a == i {
                                    fits_of(lst.take(t as int), g, inp, n as int, a, b)
                                } else {
                                    Seq::empty()
                                },
                                g,
                                a,
                                b,
                            ),
                    decreases matching.len() - t,
                {
                    let fi = matching[t];
                    let ghost cb = *passive_chart;
                    proof {
                        assert(lst.take(t + 1).drop_last() =~= lst.take(t as int));
                        assert(lst.take(t + 1).last() == fi);
                        assert(crate::grammar::lists_exactly(
                            g.flat_by_first_word.lookup(inp[i as int]),
                            g.rules@,
                            crate::grammar::RuleKind::Flat,
                            Some(inp[i as int]),
                        ));
                        assert(lst[t as int] == fi);
                        lemma_flat_words(g, fi as int);
                        assert(g.rules@[fi as int].rhs@.len() + n <= usize::MAX);
                    }
                    let rule = &grammar.rules[fi];
                    let rhs_len = rule.rhs.len();
                    let fits = if i + rhs_len <= n {
                        proof {
                            assert forall|k: int| 0 <= k < rule.rhs@.len() implies (
                            #[trigger] rule.rhs@[k])@ is T by {
                                assert(rule_rhs(g, fi as int)[k] == rule.rhs@[k]@);
                            }
                        }
                        rest_words_match(input, i, &rule.rhs)
                    } else {
                        false
                    };
                    let ghost hit_q: int = 0;
                    if fits {
                        let item = Item::from_rule(fi, &rule.rhs, i, i + rhs_len, rhs_len);
                        proof {
                            assert forall|k: int| 1 <= k < rule_rhs(g, fi as int).len() implies rule_rhs(
                                g,
                                fi as int,
                            )[k] == SymbolView::T(inp[i + k]) by {
                                assert(inp[i + k] == input@[i + k]@);
                            }
                            assert(flat_fits(g, inp, n as int, lst[t as int], i as int, (i + rhs_len) as int));
                            lemma_fits_has(lst, g, inp, n as int, i as int, (i + rhs_len) as int, t as int);
                            let hs = flat_hits(g, inp, n as int, i as int, (i + rhs_len) as int);
                            hit_q = choose|q: int| 0 <= q < hs.len() && hs[q] == fi;
                            assert(g.rules@[hs[hit_q] as int].lhs@ is NT);
                            assert(gs.contains(category(g, hs[hit_q] as int)));
                            if !passive_chart.known(rule.lhs@->NT_0) {
                                lemma_room_in(*passive_chart, gs, rule.lhs@->NT_0);
                            }
                            assert(rule.lhs@ is NT);
                        }
                        passive_chart.add(item, i, i + rhs_len, rule.lhs.nt_symbol());
                        proof {
                            let c1 = *passive_chart;
                            let rhs = rule_rhs(g, fi as int);
                            // the new item is sound
                            if sound0 {
                                assert(rhs[0] == SymbolView::T(inp[i as int])) by {
                                    assert(crate::grammar::selects(
                                        g.rules@[fi as int],
                                        crate::grammar::RuleKind::Flat,
                                        Some(inp[i as int]),
                                    ));
                                }
                                assert forall|k: int| 0 <= k < rhs_len implies rhs[k]
                                    == SymbolView::T(inp[i + k]) by {
                                    if k == 0 {
                                    } else {
                                        assert(inp[i + k] == input@[i + k]@);
                                    }
                                }
                                lemma_reach_words(
                                    rhs,
                                    item.tail_spans@,
                                    inp,
                                    cb,
                                    i as int,
                                    0,
                                    rhs.len(),
                                );
                                lemma_add_sound(
                                    g,
                                    inp,
                                    cb,
                                    c1,
                                    item,
                                    i as int,
                                    (i + rhs_len) as int,
                                    rule.lhs@->NT_0,
                                );
                            }
                            assert forall|s: Seq<char>, l: u16, r: u16| #[trigger]
                                c0.rights(s, l).contains(r) implies c1.rights(s, l).contains(
                                r,
                            ) by {
                                assert(cb.rights(s, l).contains(r));
                                if !(cb.rights(s, l) == c1.rights(s, l)) {
                                    cb.lemma_rights_increasing(s, l);
                                    lemma_with_right(cb.rights(s, l), (i + rhs_len) as u16);
                                    assert(with_right(cb.rights(s, l), (i + rhs_len) as u16).contains(r));
                                }
                            }
                            assert forall|s: Seq<char>| #[trigger] c1.known(s) implies is_category(
                                g,
                                s,
                            ) by {
                                if !cb.known(s) {
                                    assert(category(g, fi as int) == s);
                                }
                            }
                            let sym = rule.lhs@->NT_0;
                            let j1 = (i + rhs_len) as int;
                            let hs = flat_hits(g, inp, n as int, i as int, j1);
                            cb.lemma_rights_increasing(sym, i as u16);
                            lemma_with_right(cb.rights(sym, i as u16), j1 as u16);
                            assert(chart_has(c1, sym, i as int, j1));
                            assert forall|s: Seq<char>| #[trigger] c1.known(s) implies gs.contains(s) by {
                                if !cb.known(s) {
                                    assert(s == category(g, hs[hit_q] as int));
                                }
                            }
                            assert forall|s: Seq<char>, l: u16, r: u16| #[trigger]
                                c1.rights(s, l).contains(r) implies c0.rights(s, l).contains(r) || exists|
                                a: int,
                                b: int,
                            | l == a as u16 && r == b as u16 && is_flat_entry(g, inp, n as int, s, a, b) by {
                                if !cb.rights(s, l).contains(r) {
                                    assert(s == sym && l == i as u16);
                                    assert(with_right(cb.rights(sym, i as u16), j1 as u16).contains(r));
                                    assert(r == j1 as u16);
                                    assert(category(g, hs[hit_q] as int) == s);
                                    assert(is_flat_entry(g, inp, n as int, s, i as int, j1));
                                }
                            }
                            assert forall|s: Seq<char>, l: u16, r: u16| #[trigger]
                                cb.rights(s, l).contains(r) implies c1.rights(s, l).contains(r) by {
                                if s == sym && l == i as u16 {
                                    assert(with_right(cb.rights(sym, i as u16), j1 as u16).contains(r));
                                }
                            }
                        }
                    }
                    proof {
                        let c1 = *passive_chart;
                        assert forall|a: int, b: int|
                            0 <= a <= size && 0 <= b <= size implies extended_by(
                            c0.cell(a, b),
                            #[trigger] c1.cell(a, b),
                            if a < i {
                                flat_hits(g, inp, n as int, a, b)
                            } else if a == i {
                                fits_of(lst.take(t + 1), g, inp, n as int, a, b)
                            } else {
                                Seq::empty()
                            },
                            g,
                            a,
                            b,
                        ) by {
                            let hits0 = if a < i {
                                flat_hits(g, inp, n as int, a, b)
                            } else if a == i {
                                fits_of(lst.take(t as int), g, inp, n as int, a, b)
                            } else {
                                Seq::empty()
                            };
                            assert(extended_by(c0.cell(a, b), cb.cell(a, b), hits0, g, a, b));
                            let here = fits && a == i && b == i + rhs_len;
                            if a == i {
                                assert(flat_fits(g, inp, n as int, fi, a, b) == here) by {
                                    if fits {
                                        assert forall|k: int| 1 <= k < rule_rhs(g, fi as int).len() implies rule_rhs(g, fi as int)[k] == SymbolView::T(inp[a + k]) by {
                                            assert(inp[a + k] == input@[a + k]@);
                                        }
                                    }
                                    if flat_fits(g, inp, n as int, fi, a, b) {
                                        assert forall|k: int|
                                            1 <= k < rule.rhs@.len() implies syms_view(rule.rhs@)[k]
                                            == SymbolView::T(input@[i + k]@) by {
                                            assert(inp[a + k] == input@[a + k]@);
                                        }
                                    }
                                }
                            }
                            if here {
                                let it = c1.cell(a, b)[c1.cell(a, b).len() - 1];
                                assert(c1.cell(a, b) == cb.cell(a, b).push(it));
                                let hits1 = fits_of(lst.take(t + 1), g, inp, n as int, a, b);
                                assert(hits1 == hits0.push(fi));
                                assert(c1.cell(a, b).take(c0.cell(a, b).len() as int) =~= cb.cell(
                                    a,
                                    b,
                                ).take(c0.cell(a, b).len() as int));
                                assert forall|q: int| 0 <= q < hits1.len() implies {
                                    let it = #[trigger] c1.cell(a, b)[c0.cell(a, b).len() + q];
                                    &&& it.rule_idx == hits1[q]
                                    &&& it.left == a
                                    &&& it.right == b
                                    &&& it.dot == b - a
                                    &&& it.tail_spans@ == initial_spans(
                                        rule_rhs(g, hits1[q] as int),
                                    )
                                } by {
                                    if q < hits0.len() {
                                        assert(c1.cell(a, b)[c0.cell(a, b).len() + q] == cb.cell(
                                            a,
                                            b,
                                        )[c0.cell(a, b).len() + q]);
                                    }
                                }
                            } else {
                                assert(c1.cell(a, b) == cb.cell(a, b));
                            }
                        }
                        assert forall|b: int, q: int|
                            0 <= b <= size && 0 <= q < fits_of(
                                lst.take(t + 1),
                                g,
                                inp,
                                n as int,
                                i as int,
                                b,
                            ).len() implies chart_has(
                            c1,
                            category(
                                g,
                                #[trigger] fits_of(lst.take(t + 1), g, inp, n as int, i as int, b)[q] as int,
                            ),
                            i as int,
                            b,
                        ) by {
                            let f0 = fits_of(lst.take(t as int), g, inp, n as int, i as int, b);
                            let f1 = fits_of(lst.take(t + 1), g, inp, n as int, i as int, b);
                            if q < f0.len() {
                                assert(f1[q] == f0[q]);
                                assert(cb.rights(category(g, f0[q] as int), i as u16).contains(b as u16));
                            } else {
                                assert(f1[q] == fi);
                                assert(flat_fits(g, inp, n as int, fi, i as int, b));
                                if !fits {
                                    assert forall|k: int| 1 <= k < rule.rhs@.len() implies syms_view(
                                        rule.rhs@,
                                    )[k] == SymbolView::T(input@[i + k]@) by {
                                        assert(inp[i + k] == input@[i + k]@);
                                    }
                                }
                            }
                        }
                        assert forall|a: int, b: int, q: int|
                            0 <= a < i && 0 <= b <= size && 0 <= q < flat_hits(g, inp, n as int, a, b).len()
                                implies chart_has(
                            c1,
                            category(g, #[trigger] flat_hits(g, inp, n as int, a, b)[q] as int),
                            a,
                            b,
                        ) by {
                            assert(cb.rights(
                                category(g, flat_hits(g, inp, n as int, a, b)[q] as int),
                                a as u16,
                            ).contains(b as u16));
                        }
                    }
                    t += 1;
                }
                proof {
                    assert(lst.take(lst.len() as int) =~= lst);
                    assert forall|a: int, b: int, q: int|
                        0 <= a < i + 1 && 0 <= b <= size && 0 <= q < flat_hits(g, inp, n as int, a, b).len()
                            implies chart_has(
                        *passive_chart,
                        category(g, #[trigger] flat_hits(g, inp, n as int, a, b)[q] as int),
                        a,
                        b,
                    ) by {
                        if a == i {
                            assert(flat_hits(g, inp, n as int, a, b) == fits_of(
                                lst.take(lst.len() as int),
                                g,
                                inp,
                                n as int,
                                i as int,
                                b,
                            ));
                        }
                    }
                }
            },
            None => {
                proof {
                    assert(g.flat_by_first_word.lookup(inp[i as int]) =~= Seq::<usize>::empty());
                    assert forall|b: int| #![auto] 0 <= b <= size implies flat_hits(
                        g,
                        inp,
                        n as int,
                        i as int,
                        b,
                    ) =~= Seq::<usize>::empty() by {}
                }
            },
        }
        i += 1;
    }
    proof {
        let c = *passive_chart;
        assert forall|a: int, b: int, r: int|
            0 <= a < b <= n && 0 <= r < g.rules@.len() && !has_nonterminal(g, r) && #[trigger] matches_to(
                rule_rhs(g, r),
                inp,
                c,
                0,
                a,
                b,
            ) implies chart_has(c, category(g, r), a, b) by {
            let rv = rule_rhs(g, r);
            assert forall|k: int| 0 <= k < rv.len() implies (#[trigger] rv[k]) is T by {
                if rv[k] is NT {
                    assert(has_nonterminal(g, r));
                }
            }
            lemma_matches_words(rv, inp, c, c, 0, a, b);
            lemma_count_nt_words(rv);
            assert(g.rules@[r].rhs@[0]@ == rv[0]);
            assert(g.rules.len() == g.rules@.len());
            assert(crate::grammar::selects(g.rules@[r], crate::grammar::RuleKind::Flat, Some(inp[a])));
            let lst = g.flat_by_first_word.lookup(inp[a]);
            assert(crate::grammar::lists_exactly(lst, g.rules@, crate::grammar::RuleKind::Flat, Some(inp[a])));
            assert(lst.contains(r as usize));
            let t = choose|t: int| 0 <= t < lst.len() && lst[t] == r as usize;
            assert(flat_fits(g, inp, n as int, lst[t], a, b));
            lemma_fits_has(lst, g, inp, n as int, a, b, t);
            let hs = flat_hits(g, inp, n as int, a, b);
            let q = choose|q: int| 0 <= q < hs.len() && hs[q] == r as usize;
            assert(chart_has(c, category(g, hs[q] as int), a, b));
        }
    }
}

} // verus!
verus! {

// ------------------------------------------------------------------- scan

/// The position after the run of words of `rhs` that starts at `d`.
pub open spec fn run_end(rhs: Seq<SymbolView>, d: int) -> int
    decreases rhs.len() - d,
{
    if 0 <= d < rhs.len() && rhs[d] is T {
        run_end(rhs, d + 1)
    } else {
        d
    }
}

/// The run of words of `rhs` from `d` matches the input from `p`, ending
/// at or before `limit`.
pub open spec fn run_matches(rhs: Seq<SymbolView>, input: Seq<Seq<char>>, d: int, p: int, limit: int) -> bool
    decreases rhs.len() - d,
{
    if 0 <= d < rhs.len() && rhs[d] is T {
        &&& p < limit
        &&& 0 <= p < input.len()
        &&& rhs[d] == SymbolView::T(input[p])
        &&& run_matches(rhs, input, d + 1, p + 1, limit)
    } else {
        true
    }
}

pub proof fn lemma_run(rhs: Seq<SymbolView>, input: Seq<Seq<char>>, d: int, p: int, limit: int)
    requires
        0 <= d <= rhs.len(),
    ensures
        d <= run_end(rhs, d) <= rhs.len(),
        run_end(rhs, d) == rhs.len() || rhs[run_end(rhs, d)] is NT,
        run_matches(rhs, input, d, p, limit) ==> p + (run_end(rhs, d) - d) <= limit || run_end(
            rhs,
            d,
        ) == d,
        run_matches(rhs, input, d, p, limit) ==> forall|k: int|
            d <= k < run_end(rhs, d) ==> 0 <= p + (k - d) < input.len() && rhs[k] == SymbolView::T(
                input[p + (k - d)],
            ),
    decreases rhs.len() - d,
{
    if d < rhs.len() && rhs[d] is T {
        lemma_run(rhs, input, d + 1, p + 1, limit);
    }
}

/// Moves the item over the words that follow its dot, as long as they
/// match the input below `limit`; tells whether they all did.
fn scan(item: &mut Item, input: &[String], limit: usize, grammar: &Grammar) -> (ok: bool)
    requires
        old(item).rule_idx < grammar.rules@.len(),
        old(item).dot <= rule_rhs(*grammar, old(item).rule_idx as int).len(),
        old(item).right <= limit <= input@.len(),
    ensures
        final(item).rule_idx == old(item).rule_idx,
        final(item).left == old(item).left,
        final(item).tail_spans == old(item).tail_spans,
        final(item).dot <= rule_rhs(*grammar, old(item).rule_idx as int).len(),
        final(item).right <= limit,
        ok == run_matches(
            rule_rhs(*grammar, old(item).rule_idx as int),
            crate::text::string_views(input@),
            old(item).dot as int,
            old(item).right as int,
            limit as int,
        ),
        ok ==> final(item).dot == run_end(
            rule_rhs(*grammar, old(item).rule_idx as int),
            old(item).dot as int,
        ) && final(item).right == old(item).right + (final(item).dot - old(item).dot),
        old(item).dot <= final(item).dot,
        final(item).right == old(item).right + (final(item).dot - old(item).dot),
        forall|k: int|
            old(item).dot <= k < final(item).dot ==> #[trigger] rule_rhs(
                *grammar,
                old(item).rule_idx as int,
            )[k] == SymbolView::T(
                crate::text::string_views(input@)[old(item).right + (k - old(item).dot)],
            ),
        !ok ==> final(item).dot < rule_rhs(*grammar, old(item).rule_idx as int).len() && rule_rhs(
            *grammar,
            old(item).rule_idx as int,
        )[final(item).dot as int] is T && (final(item).right == limit || rule_rhs(
            *grammar,
            old(item).rule_idx as int,
        )[final(item).dot as int] != SymbolView::T(
            crate::text::string_views(input@)[final(item).right as int],
        )),
{
    let ghost rhs = rule_rhs(*grammar, old(item).rule_idx as int);
    let ghost inp = crate::text::string_views(input@);
    let ghost d0 = old(item).dot as int;
    let ghost p0 = old(item).right as int;
    let rule_rhs_vec = &grammar.rules[item.rule_idx].rhs;
    while item.dot < rule_rhs_vec.len() && rule_rhs_vec[item.dot].is_t()
        invariant
            rhs == syms_view(rule_rhs_vec@),
            rhs == rule_rhs(*grammar, old(item).rule_idx as int),
            inp == crate::text::string_views(input@),
            d0 == old(item).dot,
            p0 == old(item).right,
            item.rule_idx == old(item).rule_idx,
            item.left == old(item).left,
            item.tail_spans == old(item).tail_spans,
            d0 <= item.dot <= rhs.len(),
            item.right <= limit <= input@.len(),
            item.right - p0 == item.dot - d0,
            run_end(rhs, d0) == run_end(rhs, item.dot as int),
            run_matches(rhs, inp, d0, p0, limit as int) == run_matches(
                rhs,
                inp,
                item.dot as int,
                item.right as int,
                limit as int,
            ),
            forall|k: int| d0 <= k < item.dot ==> #[trigger] rhs[k] == SymbolView::T(inp[p0 + (k - d0)]),
        decreases rhs.len() - item.dot,
    {
        assert(rhs[item.dot as int] == rule_rhs_vec@[item.dot as int]@);
        assert(rhs[item.dot as int] is T);
        if item.right == limit {
            assert(!run_matches(rhs, inp, item.dot as int, item.right as int, limit as int));
            return false;
        }
        assert(inp[item.right as int] == input@[item.right as int]@);
        let w = rule_rhs_vec[item.dot].word();
        if str_eq(w, input[item.right].as_str()) {
            item.dot += 1;
            item.right += 1;
        } else {
            assert(rhs[item.dot as int] != SymbolView::T(inp[item.right as int]));
            assert(!run_matches(rhs, inp, item.dot as int, item.right as int, limit as int));
            return false;
        }
    }
    true
}

/// Matching over a run of matched words.
pub proof fn lemma_reach_run(
    rhs: Seq<SymbolView>,
    spans: Seq<Option<Span>>,
    input: Seq<Seq<char>>,
    chart: Chart,
    start: int,
    d0: nat,
    p0: int,
    limit: int,
)
    requires
        d0 <= rhs.len(),
        reach(rhs, spans, input, chart, start, d0) == Some(p0),
        run_matches(rhs, input, d0 as int, p0, limit),
    ensures
        reach(rhs, spans, input, chart, start, run_end(rhs, d0 as int) as nat) == Some(
            p0 + (run_end(rhs, d0 as int) - d0),
        ),
{
    lemma_run(rhs, input, d0 as int, p0, limit);
    let e = run_end(rhs, d0 as int);
    if e > d0 {
        lemma_reach_words(rhs, spans, input, chart, start, d0, e as nat);
    }
}

} // verus!
verus! {

// ------------------------------------------------------------------ parse

/// A partial item of cell `(i, j)`: a rule matched from `i` up to its dot
/// at `right <= j` (the matching is claimed when `sound`).
pub open spec fn active_ok(
    g: Grammar,
    input: Seq<Seq<char>>,
    chart: Chart,
    item: Item,
    i: int,
    j: int,
    sound: bool,
) -> bool {
    let rhs = rule_rhs(g, item.rule_idx as int);
    &&& item.rule_idx < g.rules@.len()
    &&& item.left == i
    &&& item.dot <= rhs.len()
    &&& item.tail_spans@.len() == rhs.len()
    &&& item.right <= j
    &&& sound ==> reach(rhs, item.tail_spans@, input, chart, i, item.dot as nat) == Some(
        item.right as int,
    )
}

/// `new` is `old` followed by complete items of cell `(i, j)`.
pub open spec fn cell_grows(old: Seq<Item>, new: Seq<Item>, g: Grammar, i: int, j: int) -> bool {
    &&& old.len() <= new.len()
    &&& new.take(old.len() as int) == old
    &&& forall|k: int| old.len() <= k < new.len() ==> item_complete(g, #[trigger] new[k], i, j)
}

/// The symbols completed over `(i, j)` so far: distinct categories that
/// the chart records over `(i, j)`.
pub open spec fn symbols_found(
    g: Grammar,
    chart: Chart,
    syms: Seq<Seq<char>>,
    i: int,
    j: int,
    sound: bool,
) -> bool {
    &&& syms.no_duplicates()
    &&& forall|k: int| 0 <= k < syms.len() ==> is_category(g, #[trigger] syms[k])
    &&& forall|k: int| 0 <= k < syms.len() ==> chart_has(chart, #[trigger] syms[k], i, j)
}

/// What `Chart::add` does to a chart.
pub open spec fn chart_added(c0: Chart, c1: Chart, item: Item, i: int, j: int, sym: Seq<char>) -> bool {
    &&& c1.inv()
    &&& c1.size() == c0.size()
    &&& c1.cell(i, j) == c0.cell(i, j).push(item)
    &&& forall|a: int, b: int|
        0 <= a <= c0.size() && 0 <= b <= c0.size() && !(a == i && b == j) ==> #[trigger] c1.cell(
            a,
            b,
        ) == c0.cell(a, b)
    &&& forall|s: Seq<char>| #[trigger] c1.known(s) == (c0.known(s) || s == sym)
    &&& c0.inv()
    &&& forall|s: Seq<char>, l: u16| #[trigger]
        c1.rights(s, l) == if s == sym && l == i as u16 {
            with_right(c0.rights(s, l), j as u16)
        } else {
            c0.rights(s, l)
        }
}

/// Adding keeps every recorded entry, records the new one, and keeps the
/// symbols categories.
pub proof fn lemma_added(g: Grammar, c0: Chart, c1: Chart, item: Item, i: int, j: int, sym: Seq<char>)
    requires
        chart_added(c0, c1, item, i, j, sym),
        symbols_are_categories(g, c0),
        is_category(g, sym),
    ensures
        index_grows(c0, c1),
        chart_has(c1, sym, i, j),
        symbols_are_categories(g, c1),
{
    c0.lemma_rights_increasing(sym, i as u16);
    lemma_with_right(c0.rights(sym, i as u16), j as u16);
    assert forall|s: Seq<char>, l: u16, r: u16| #[trigger] c0.rights(s, l).contains(r) implies c1.rights(
        s,
        l,
    ).contains(r) by {
        if s == sym && l == i as u16 {
            assert(with_right(c0.rights(sym, i as u16), j as u16).contains(r));
        }
    }
    assert(with_right(c0.rights(sym, i as u16), j as u16).contains(j as u16));
}

pub proof fn lemma_active_grows(
    g: Grammar,
    input: Seq<Seq<char>>,
    c1: Chart,
    c2: Chart,
    item: Item,
    i: int,
    j: int,
    sound: bool,
)
    requires
        index_grows(c1, c2),
        active_ok(g, input, c1, item, i, j, sound),
    ensures
        active_ok(g, input, c2, item, i, j, sound),
{
    if sound {
        let rhs = rule_rhs(g, item.rule_idx as int);
        lemma_reach_grows(rhs, item.tail_spans@, input, c1, c2, i, item.dot as nat);
    }
}

/// Matching the first `d` symbols looks at the first `d` spans only.
pub proof fn lemma_reach_spans(
    rhs: Seq<SymbolView>,
    s1: Seq<Option<Span>>,
    s2: Seq<Option<Span>>,
    input: Seq<Seq<char>>,
    chart: Chart,
    start: int,
    d: nat,
)
    requires
        forall|k: int| 0 <= k < d ==> s1[k] == s2[k],
    ensures
        reach(rhs, s1, input, chart, start, d) == reach(rhs, s2, input, chart, start, d),
    decreases d,
{
    if d > 0 {
        lemma_reach_spans(rhs, s1, s2, input, chart, start, (d - 1) as nat);
    }
}

} // verus!
verus! {

// ------------------------------------------------- completeness of flat rules

/// Every rule without a nonterminal whose words match the input over a
/// span `(a, b)`, `0 <= a < b <= n`, has its category recorded there.
pub open spec fn flat_complete(g: Grammar, input: Seq<Seq<char>>, chart: Chart, n: int) -> bool {
    forall|a: int, b: int, r: int|
        0 <= a < b <= n && 0 <= r < g.rules@.len() && !has_nonterminal(g, r) && #[trigger] matches_to(
            rule_rhs(g, r),
            input,
            chart,
            0,
            a,
            b,
        ) ==> chart_has(chart, category(g, r), a, b)
}

/// Every rule whose right-hand side can be matched over a span `(a, b)`,
/// `0 <= a < b <= n`, has its category recorded there.
pub open spec fn all_complete(g: Grammar, input: Seq<Seq<char>>, chart: Chart, n: int) -> bool {
    forall|a: int, b: int, r: int|
        0 <= a < b <= n && 0 <= r < g.rules@.len() && #[trigger] matches_to(
            rule_rhs(g, r),
            input,
            chart,
            0,
            a,
            b,
        ) ==> chart_has(chart, category(g, r), a, b)
}

/// Words alone count no nonterminal.
proof fn lemma_count_nt_words(v: Seq<SymbolView>)
    requires
        forall|k: int| 0 <= k < v.len() ==> (#[trigger] v[k]) is T,
    ensures
        count_nt(v) == 0,
    decreases v.len(),
{
    if v.len() > 0 {
        assert forall|k: int| 0 <= k < v.drop_last().len() implies (#[trigger] v.drop_last()[k]) is T by {
            assert(v.drop_last()[k] == v[k]);
        }
        lemma_count_nt_words(v.drop_last());
        assert(v[v.len() - 1] is T);
    }
}

/// A match of words only does not look at the chart, and lays the words
/// on the input.
proof fn lemma_matches_words(
    rhs: Seq<SymbolView>,
    input: Seq<Seq<char>>,
    c1: Chart,
    c2: Chart,
    d: int,
    p: int,
    j: int,
)
    requires
        forall|k: int| 0 <= k < rhs.len() ==> (#[trigger] rhs[k]) is T,
        matches_to(rhs, input, c1, d, p, j),
    ensures
        matches_to(rhs, input, c2, d, p, j),
        0 <= d <= rhs.len(),
        j == p + (rhs.len() - d),
        forall|k: int| d <= k < rhs.len() ==> #[trigger] rhs[k] == SymbolView::T(input[p + (k - d)]),
    decreases rhs.len() - d,
{
    if d < rhs.len() {
        assert(rhs[d] is T);
        lemma_matches_words(rhs, input, c1, c2, d + 1, p + 1, j);
    }
}

} // verus!
verus! {

// ------------------------------------------------ what parsing may complete

/// `matches_to` over a set of entries in place of a chart.
pub open spec fn matches_in(
    rhs: Seq<SymbolView>,
    input: Seq<Seq<char>>,
    es: Set<(Seq<char>, u16, u16)>,
    d: int,
    p: int,
    j: int,
) -> bool
    decreases rhs.len() - d,
{
    if d < 0 || d > rhs.len() {
        false
    } else if d == rhs.len() {
        p == j
    } else {
        match rhs[d] {
            SymbolView::T(w) => p < j && 0 <= p < input.len() && input[p] == w && matches_in(
                rhs,
                input,
                es,
                d + 1,
                p + 1,
                j,
            ),
            SymbolView::NT(s, _) => exists|q: int|
                0 <= q <= j && #[trigger] es.contains((s, p as u16, q as u16)) && matches_in(
                    rhs,
                    input,
                    es,
                    d + 1,
                    q,
                    j,
                ),
        }
    }
}

/// Every entry that the chart records is in `es`.
pub open spec fn chart_in(c: Chart, es: Set<(Seq<char>, u16, u16)>) -> bool {
    forall|s: Seq<char>, l: u16, r: u16| #[trigger] c.rights(s, l).contains(r) ==> es.contains((s, l, r))
}

/// Rule `r` may be completed over `(a, b)`: its left-hand side is a
/// nonterminal, whose category `gs` lists and whose entry is in `es`.
pub open spec fn completes_ok(
    g: Grammar,
    es: Set<(Seq<char>, u16, u16)>,
    gs: Seq<Seq<char>>,
    r: int,
    a: int,
    b: int,
) -> bool {
    &&& g.rules@[r].lhs@ is NT
    &&& gs.contains(category(g, r))
    &&& es.contains((category(g, r), a as u16, b as u16))
}

/// When the rest of an item of cell `(i, j)` can be matched over `es` up
/// to `j`, its rule may be completed over `(i, j)`.
pub open spec fn item_safe(
    g: Grammar,
    input: Seq<Seq<char>>,
    es: Set<(Seq<char>, u16, u16)>,
    gs: Seq<Seq<char>>,
    item: Item,
    i: int,
    j: int,
) -> bool {
    matches_in(rule_rhs(g, item.rule_idx as int), input, es, item.dot as int, item.right as int, j)
        ==> completes_ok(g, es, gs, item.rule_idx as int, i, j)
}

/// An item that `parse` works through: its dot stands before a
/// nonterminal.
pub open spec fn next_nt(g: Grammar, item: Item) -> bool {
    &&& item.dot < rule_rhs(g, item.rule_idx as int).len()
    &&& rule_rhs(g, item.rule_idx as int)[item.dot as int] is NT
}

/// Every item of the active chart over `(a, b)`, `a < b <= n`, that
/// `parse` works through is safe.
pub open spec fn actives_safe(
    g: Grammar,
    input: Seq<Seq<char>>,
    es: Set<(Seq<char>, u16, u16)>,
    gs: Seq<Seq<char>>,
    active: Chart,
    n: int,
) -> bool {
    forall|a: int, b: int, q: int|
        0 <= a < b <= n && 0 <= q < active.cell(a, b).len() && next_nt(g, #[trigger] active.cell(a, b)[q])
            ==> item_safe(g, input, es, gs, active.cell(a, b)[q], a, b)
}

/// `es` holds what the passive chart records and is closed under what
/// `parse` completes; over `es`, every rule with a nonterminal that can be
/// matched over a span `(a, b)`, `0 <= a < b <= n`, and every item of the
/// active chart that `parse` works through and whose rest can be matched,
/// may be completed; and `gs`, of at most 65535 symbols (the chart's
/// symbol ids are `u16`), lists the symbols that the chart knows.
pub open spec fn parse_room_in(
    g: Grammar,
    input: Seq<Seq<char>>,
    active: Chart,
    passive: Chart,
    n: int,
    es: Set<(Seq<char>, u16, u16)>,
    gs: Seq<Seq<char>>,
) -> bool {
    &&& gs.len() <= 65535
    &&& forall|s: Seq<char>| #[trigger] passive.known(s) ==> gs.contains(s)
    &&& chart_in(passive, es)
    &&& rules_safe(g, input, es, gs, n)
    &&& actives_safe(g, input, es, gs, active, n)
}

/// Over `es`, every rule with a nonterminal that can be matched over a span
/// `(a, b)`, `0 <= a < b <= n`, may be completed there.
pub open spec fn rules_safe(
    g: Grammar,
    input: Seq<Seq<char>>,
    es: Set<(Seq<char>, u16, u16)>,
    gs: Seq<Seq<char>>,
    n: int,
) -> bool {
    forall|r: int, a: int, b: int|
        0 <= a < b <= n && 0 <= r < g.rules@.len() && has_nonterminal(g, r) && #[trigger] matches_in(
            rule_rhs(g, r),
            input,
            es,
            0,
            a,
            b,
        ) ==> completes_ok(g, es, gs, r, a, b)
}

/// Pushing a safe item onto the active cell `(i, j)` keeps the active
/// chart safe.
proof fn lemma_push_safe(
    g: Grammar,
    input: Seq<Seq<char>>,
    es: Set<(Seq<char>, u16, u16)>,
    gs: Seq<Seq<char>>,
    a0: Chart,
    a1: Chart,
    item: Item,
    i: int,
    j: int,
    n: int,
)
    requires
        0 <= i < j <= n <= a0.size(),
        actives_safe(g, input, es, gs, a0, n),
        item_safe(g, input, es, gs, item, i, j),
        a1.size() == a0.size(),
        a1.cell(i, j) == a0.cell(i, j).push(item),
        forall|a: int, b: int|
            0 <= a <= a0.size() && 0 <= b <= a0.size() && !(a == i && b == j) ==> #[trigger] a1.cell(
                a,
                b,
            ) == a0.cell(a, b),
    ensures
        actives_safe(g, input, es, gs, a1, n),
{
    assert forall|a: int, b: int, q: int|
        0 <= a < b <= n && 0 <= q < a1.cell(a, b).len() && next_nt(g, #[trigger] a1.cell(a, b)[q])
            implies item_safe(g, input, es, gs, a1.cell(a, b)[q], a, b) by {
        if a == i && b == j {
            if q < a0.cell(a, b).len() {
                assert(a1.cell(a, b)[q] == a0.cell(a, b)[q]);
            }
        } else {
            assert(a1.cell(a, b) == a0.cell(a, b));
        }
    }
}

/// A rule with nonterminals has a nonterminal.
proof fn lemma_count_has_nt(g: Grammar, r: int)
    requires
        count_nt(rule_rhs(g, r)) > 0,
    ensures
        has_nonterminal(g, r),
{
    if !has_nonterminal(g, r) {
        let rv = rule_rhs(g, r);
        assert forall|k: int| 0 <= k < rv.len() implies (#[trigger] rv[k]) is T by {
            if rv[k] is NT {
                assert(has_nonterminal(g, r));
            }
        }
        lemma_count_nt_words(rv);
    }
}

/// Parsing names only rules with a nonterminal on their left-hand side
/// and registers at most 65535 symbols: some set of entries holding what
/// the chart records and closed under what parsing completes shows it.
pub open spec fn parse_room(g: Grammar, input: Seq<Seq<char>>, active: Chart, passive: Chart, n: int) -> bool {
    exists|es: Set<(Seq<char>, u16, u16)>, gs: Seq<Seq<char>>|
        parse_room_in(g, input, active, passive, n, es, gs)
}

/// Matching over the words of a run and then on.
proof fn lemma_matches_in_words(
    rhs: Seq<SymbolView>,
    input: Seq<Seq<char>>,
    es: Set<(Seq<char>, u16, u16)>,
    d: int,
    e: int,
    p: int,
    j: int,
)
    requires
        0 <= d <= e <= rhs.len(),
        forall|k: int| d <= k < e ==> #[trigger] rhs[k] == SymbolView::T(input[p + (k - d)]),
        0 <= p,
        p + (e - d) <= input.len(),
        matches_in(rhs, input, es, e, p + (e - d), j),
        p + (e - d) <= j,
    ensures
        matches_in(rhs, input, es, d, p, j),
    decreases e - d,
{
    if d < e {
        lemma_matches_in_words(rhs, input, es, d + 1, e, p + 1, j);
        assert(rhs[d] == SymbolView::T(input[p]));
        if e == d + 1 {
        }
    }
}

} // verus!
verus! {

// ---------------------------------------------------- completeness of items

/// The symbols of `rhs` from the `d`-th on are matched from `p` exactly up
/// to `j` as the spans `ss` say: nothing for a word, which must be the
/// next input word, and for a nonterminal the span, from the current
/// position, of an entry that the chart records for its category.
pub open spec fn matches_spans(
    rhs: Seq<SymbolView>,
    input: Seq<Seq<char>>,
    chart: Chart,
    ss: Seq<Option<Span>>,
    d: int,
    p: int,
    j: int,
) -> bool
    decreases rhs.len() - d,
{
    if d < 0 || d > rhs.len() {
        false
    } else if d == rhs.len() {
        p == j
    } else {
        match rhs[d] {
            SymbolView::T(w) => ss[d] is None && p < j && 0 <= p < input.len() && input[p] == w
                && matches_spans(rhs, input, chart, ss, d + 1, p + 1, j),
            SymbolView::NT(s, _) => ss[d] is Some && ss[d]->0.left == p && p < ss[d]->0.right <= j
                && chart_has(chart, s, p, ss[d]->0.right as int) && matches_spans(
                rhs,
                input,
                chart,
                ss,
                d + 1,
                ss[d]->0.right as int,
                j,
            ),
        }
    }
}

/// For every rule with a nonterminal and every choice of spans that
/// matches it over `(a, b)`, the cell `(a, b)` holds an item of that rule
/// with those spans.
pub open spec fn items_complete(g: Grammar, input: Seq<Seq<char>>, chart: Chart, a: int, b: int) -> bool {
    forall|r: int, ss: Seq<Option<Span>>|
        0 <= r < g.rules@.len() && has_nonterminal(g, r) && ss.len() == rule_rhs(g, r).len()
            && #[trigger] matches_spans(rule_rhs(g, r), input, chart, ss, 0, a, b) ==> has_item(
            chart.cell(a, b),
            r,
            ss,
        )
}

/// Some item of `cell` applies rule `r` with the spans `ss`.
pub open spec fn has_item(cell: Seq<Item>, r: int, ss: Seq<Option<Span>>) -> bool {
    exists|k: int| 0 <= k < cell.len() && cell[k].rule_idx == r && #[trigger] cell[k].tail_spans@ == ss
}

/// An item whose dot stands before a nonterminal, whose spans agree with
/// `ss` before the dot and have nothing for the words after it, and whose
/// rest can be matched up to `j` as `ss` says.
pub open spec fn pending_ss(
    g: Grammar,
    input: Seq<Seq<char>>,
    chart: Chart,
    item: Item,
    ss: Seq<Option<Span>>,
    j: int,
) -> bool {
    let rhs = rule_rhs(g, item.rule_idx as int);
    &&& item.rule_idx < g.rules@.len()
    &&& item.dot < rhs.len()
    &&& rhs[item.dot as int] is NT
    &&& ss.len() == rhs.len()
    &&& item.tail_spans@.len() == rhs.len()
    &&& forall|k: int| 0 <= k < item.dot ==> #[trigger] item.tail_spans@[k] == ss[k]
    &&& forall|k: int| item.dot <= k < rhs.len() && rhs[k] is T ==> (#[trigger] item.tail_spans@[k]) is None
    &&& matches_spans(rhs, input, chart, ss, item.dot as int, item.right as int, j)
}

proof fn lemma_has_item_push(cell: Seq<Item>, x: Item, r: int, ss: Seq<Option<Span>>)
    requires
        has_item(cell, r, ss),
    ensures
        has_item(cell.push(x), r, ss),
{
    let k = choose|k: int| 0 <= k < cell.len() && cell[k].rule_idx == r && #[trigger] cell[k].tail_spans@ == ss;
    assert(cell.push(x)[k] == cell[k]);
}

proof fn lemma_has_item_grows(c1: Seq<Item>, c2: Seq<Item>, r: int, ss: Seq<Option<Span>>)
    requires
        has_item(c1, r, ss),
        c1.len() <= c2.len(),
        c2.take(c1.len() as int) == c1,
    ensures
        has_item(c2, r, ss),
{
    let k = choose|k: int| 0 <= k < c1.len() && c1[k].rule_idx == r && #[trigger] c1[k].tail_spans@ == ss;
    assert(c2[k] == c2.take(c1.len() as int)[k]);
}

/// A match along spans is a match.
proof fn lemma_spans_matches(
    rhs: Seq<SymbolView>,
    input: Seq<Seq<char>>,
    chart: Chart,
    ss: Seq<Option<Span>>,
    d: int,
    p: int,
    j: int,
)
    requires
        matches_spans(rhs, input, chart, ss, d, p, j),
    ensures
        matches_to(rhs, input, chart, d, p, j),
    decreases rhs.len() - d,
{
    if d < rhs.len() {
        match rhs[d] {
            SymbolView::T(w) => {
                lemma_spans_matches(rhs, input, chart, ss, d + 1, p + 1, j);
            },
            SymbolView::NT(s, _) => {
                let q = ss[d]->0.right as int;
                lemma_spans_matches(rhs, input, chart, ss, d + 1, q, j);
                assert(chart_has(chart, s, p, q));
            },
        }
    }
}

proof fn lemma_spans_grows(
    rhs: Seq<SymbolView>,
    input: Seq<Seq<char>>,
    c1: Chart,
    c2: Chart,
    ss: Seq<Option<Span>>,
    d: int,
    p: int,
    j: int,
)
    requires
        index_grows(c1, c2),
        matches_spans(rhs, input, c1, ss, d, p, j),
    ensures
        matches_spans(rhs, input, c2, ss, d, p, j),
    decreases rhs.len() - d,
{
    if d < rhs.len() {
        match rhs[d] {
            SymbolView::T(w) => {
                lemma_spans_grows(rhs, input, c1, c2, ss, d + 1, p + 1, j);
            },
            SymbolView::NT(s, _) => {
                let q = ss[d]->0.right as int;
                lemma_spans_grows(rhs, input, c1, c2, ss, d + 1, q, j);
                assert(c1.rights(s, p as u16).contains(q as u16));
            },
        }
    }
}

proof fn lemma_spans_frame(
    rhs: Seq<SymbolView>,
    input: Seq<Seq<char>>,
    c1: Chart,
    c2: Chart,
    ss: Seq<Option<Span>>,
    d: int,
    p: int,
    j: int,
    a: int,
    x: int,
    y: int,
)
    requires
        adds_only_at(c1, c2, x, y),
        0 <= a <= p,
        j < 65536,
        0 <= x < 65536,
        0 <= y < 65536,
        !(a <= x && y <= j),
        matches_spans(rhs, input, c2, ss, d, p, j),
    ensures
        matches_spans(rhs, input, c1, ss, d, p, j),
    decreases rhs.len() - d,
{
    if d < rhs.len() {
        match rhs[d] {
            SymbolView::T(w) => {
                lemma_spans_frame(rhs, input, c1, c2, ss, d + 1, p + 1, j, a, x, y);
            },
            SymbolView::NT(s, _) => {
                let q = ss[d]->0.right as int;
                assert(c2.rights(s, p as u16).contains(q as u16));
                assert(c1.rights(s, p as u16).contains(q as u16));
                lemma_spans_frame(rhs, input, c1, c2, ss, d + 1, q, j, a, x, y);
            },
        }
    }
}

/// A match along spans over `(i, j)` that uses an entry recorded over
/// `(i, j)` itself is that of a rule consisting of one nonterminal alone.
proof fn lemma_spans_new_span(
    rhs: Seq<SymbolView>,
    input: Seq<Seq<char>>,
    c1: Chart,
    c2: Chart,
    ss: Seq<Option<Span>>,
    i: int,
    j: int,
)
    requires
        adds_only_at(c1, c2, i, j),
        0 <= i < j < 65536,
        matches_spans(rhs, input, c2, ss, 0, i, j),
    ensures
        matches_spans(rhs, input, c1, ss, 0, i, j) || (rhs.len() == 1 && rhs[0] is NT && chart_has(
            c2,
            rhs[0]->NT_0,
            i,
            j,
        ) && ss[0] == Some(Span { left: i as i32, right: j as i32 })),
{
    if rhs.len() > 0 {
        match rhs[0] {
            SymbolView::T(w) => {
                lemma_spans_frame(rhs, input, c1, c2, ss, 1, i + 1, j, i + 1, i, j);
            },
            SymbolView::NT(s, _) => {
                let q = ss[0]->0.right as int;
                assert(c2.rights(s, i as u16).contains(q as u16));
                if c1.rights(s, i as u16).contains(q as u16) {
                    lemma_spans_frame(rhs, input, c1, c2, ss, 1, q, j, q, i, j);
                    assert(chart_has(c1, s, i, q));
                } else {
                    assert(q == j);
                    lemma_spans_matches(rhs, input, c2, ss, 1, q, j);
                    lemma_matches_len(rhs, input, c2, 1, q, j);
                    assert(ss[0]->0 == Span { left: i as i32, right: j as i32 });
                }
            },
        }
    }
}

/// Matching along spans over a run of words: the words match the input,
/// the spans have nothing for them, and the match goes on after them.
proof fn lemma_spans_run(
    rhs: Seq<SymbolView>,
    input: Seq<Seq<char>>,
    chart: Chart,
    ss: Seq<Option<Span>>,
    d: int,
    p: int,
    j: int,
)
    requires
        matches_spans(rhs, input, chart, ss, d, p, j),
    ensures
        run_matches(rhs, input, d, p, j),
        forall|k: int| d <= k < run_end(rhs, d) ==> (#[trigger] ss[k]) is None,
        matches_spans(rhs, input, chart, ss, run_end(rhs, d), p + (run_end(rhs, d) - d), j),
    decreases rhs.len() - d,
{
    if 0 <= d < rhs.len() && rhs[d] is T {
        lemma_spans_run(rhs, input, chart, ss, d + 1, p + 1, j);
    }
}

} // verus!
verus! {

// ----------------------------------------------------------- completeness

/// The symbols of `rhs` from the `d`-th on can be matched against the
/// input from `p` exactly up to `j`: each word by the next input word, each
/// nonterminal by an entry that the chart records for its category from
/// the current position to a later one.
pub open spec fn matches_to(
    rhs: Seq<SymbolView>,
    input: Seq<Seq<char>>,
    chart: Chart,
    d: int,
    p: int,
    j: int,
) -> bool
    decreases rhs.len() - d,
{
    if d < 0 || d > rhs.len() {
        false
    } else if d == rhs.len() {
        p == j
    } else {
        match rhs[d] {
            SymbolView::T(w) => p < j && 0 <= p < input.len() && input[p] == w && matches_to(
                rhs,
                input,
                chart,
                d + 1,
                p + 1,
                j,
            ),
            SymbolView::NT(s, _) => exists|q: int|
                p < q <= j && #[trigger] chart_has(chart, s, p, q) && matches_to(
                    rhs,
                    input,
                    chart,
                    d + 1,
                    q,
                    j,
                ),
        }
    }
}

/// Rule `r` has a nonterminal on its right-hand side.
pub open spec fn has_nonterminal(g: Grammar, r: int) -> bool {
    exists|k: int| 0 <= k < rule_rhs(g, r).len() && (#[trigger] rule_rhs(g, r)[k]) is NT
}

/// An item whose dot stands before a nonterminal and whose rest can be
/// matched up to `j`.
pub open spec fn pending(g: Grammar, input: Seq<Seq<char>>, chart: Chart, item: Item, j: int) -> bool {
    let rhs = rule_rhs(g, item.rule_idx as int);
    &&& item.rule_idx < g.rules@.len()
    &&& item.dot < rhs.len()
    &&& rhs[item.dot as int] is NT
    &&& matches_to(rhs, input, chart, item.dot as int, item.right as int, j)
}

/// Every rule with a nonterminal whose right-hand side can be matched
/// over `(a, b)` has its category recorded over `(a, b)`.
pub open spec fn complete_span(g: Grammar, input: Seq<Seq<char>>, chart: Chart, a: int, b: int) -> bool {
    forall|r: int|
        0 <= r < g.rules@.len() && has_nonterminal(g, r) && #[trigger] matches_to(
            rule_rhs(g, r),
            input,
            chart,
            0,
            a,
            b,
        ) ==> chart_has(chart, category(g, r), a, b)
}

/// `c2` records nothing that `c1` does not, but entries over `(i, j)`.
pub open spec fn adds_only_at(c1: Chart, c2: Chart, i: int, j: int) -> bool {
    forall|s: Seq<char>, l: u16, r: u16| #[trigger]
        c2.rights(s, l).contains(r) ==> c1.rights(s, l).contains(r) || (l == i as u16 && r == j
            as u16)
}

/// Every symbol that `c` records over `(i, j)` and `c0` does not is among
/// `syms`.
pub open spec fn fresh_listed(c0: Chart, c: Chart, syms: Seq<Seq<char>>, i: int, j: int) -> bool {
    forall|s: Seq<char>| #[trigger] chart_has(c, s, i, j) && !chart_has(c0, s, i, j) ==> syms.contains(s)
}

/// Rule `r` consists of the category `s` alone.
pub open spec fn unary_over(g: Grammar, r: int, s: Seq<char>) -> bool {
    &&& rule_rhs(g, r).len() == 1
    &&& rule_rhs(g, r)[0] is NT
    &&& rule_rhs(g, r)[0]->NT_0 == s
}

/// For each of the first `upto` symbols of `syms`, every rule that
/// consists of it alone has its category recorded over `(i, j)`, and an
/// item over `(i, j)` in the cell.
pub open spec fn units_closed(g: Grammar, chart: Chart, syms: Seq<Seq<char>>, upto: int, i: int, j: int) -> bool {
    forall|k: int, r: int|
        0 <= k < upto && 0 <= r < g.rules@.len() && #[trigger] unary_over(g, r, syms[k])
            ==> chart_has(chart, category(g, r), i, j) && has_item(chart.cell(i, j), r, unit_spans(i, j))
}

/// The spans of an item of a rule of one nonterminal over `(i, j)`.
pub open spec fn unit_spans(i: int, j: int) -> Seq<Option<Span>> {
    seq![Some(Span { left: i as i32, right: j as i32 })]
}

/// A match takes at least one input position per symbol.
pub proof fn lemma_matches_len(
    rhs: Seq<SymbolView>,
    input: Seq<Seq<char>>,
    chart: Chart,
    d: int,
    p: int,
    j: int,
)
    requires
        matches_to(rhs, input, chart, d, p, j),
    ensures
        0 <= d <= rhs.len(),
        p + (rhs.len() - d) <= j,
    decreases rhs.len() - d,
{
    if d < rhs.len() {
        match rhs[d] {
            SymbolView::T(w) => {
                lemma_matches_len(rhs, input, chart, d + 1, p + 1, j);
            },
            SymbolView::NT(s, _) => {
                let q = choose|q: int|
                    p < q <= j && #[trigger] chart_has(chart, s, p, q) && matches_to(
                        rhs,
                        input,
                        chart,
                        d + 1,
                        q,
                        j,
                    );
                lemma_matches_len(rhs, input, chart, d + 1, q, j);
            },
        }
    }
}

/// A match stays a match as the chart records more entries.
pub proof fn lemma_matches_grows(
    rhs: Seq<SymbolView>,
    input: Seq<Seq<char>>,
    c1: Chart,
    c2: Chart,
    d: int,
    p: int,
    j: int,
)
    requires
        index_grows(c1, c2),
        matches_to(rhs, input, c1, d, p, j),
    ensures
        matches_to(rhs, input, c2, d, p, j),
    decreases rhs.len() - d,
{
    if d < rhs.len() {
        match rhs[d] {
            SymbolView::T(w) => {
                lemma_matches_grows(rhs, input, c1, c2, d + 1, p + 1, j);
            },
            SymbolView::NT(s, _) => {
                let q = choose|q: int|
                    p < q <= j && #[trigger] chart_has(c1, s, p, q) && matches_to(
                        rhs,
                        input,
                        c1,
                        d + 1,
                        q,
                        j,
                    );
                lemma_matches_grows(rhs, input, c1, c2, d + 1, q, j);
                assert(c1.rights(s, p as u16).contains(q as u16));
                assert(chart_has(c2, s, p, q));
            },
        }
    }
}

/// A match from `p >= a` up to `j` does not use entries over a span that
/// does not lie within `[a, j]`.
pub proof fn lemma_matches_frame(
    rhs: Seq<SymbolView>,
    input: Seq<Seq<char>>,
    c1: Chart,
    c2: Chart,
    d: int,
    p: int,
    j: int,
    a: int,
    x: int,
    y: int,
)
    requires
        adds_only_at(c1, c2, x, y),
        0 <= a <= p,
        j < 65536,
        0 <= x < 65536,
        0 <= y < 65536,
        !(a <= x && y <= j),
        matches_to(rhs, input, c2, d, p, j),
    ensures
        matches_to(rhs, input, c1, d, p, j),
    decreases rhs.len() - d,
{
    if d < rhs.len() {
        match rhs[d] {
            SymbolView::T(w) => {
                lemma_matches_frame(rhs, input, c1, c2, d + 1, p + 1, j, a, x, y);
            },
            SymbolView::NT(s, _) => {
                let q = choose|q: int|
                    p < q <= j && #[trigger] chart_has(c2, s, p, q) && matches_to(
                        rhs,
                        input,
                        c2,
                        d + 1,
                        q,
                        j,
                    );
                assert(c2.rights(s, p as u16).contains(q as u16));
                assert(c1.rights(s, p as u16).contains(q as u16));
                lemma_matches_frame(rhs, input, c1, c2, d + 1, q, j, a, x, y);
                assert(chart_has(c1, s, p, q));
            },
        }
    }
}

/// A match over `(i, j)` that uses an entry recorded over `(i, j)` itself
/// is that of a rule consisting of one nonterminal alone.
pub proof fn lemma_matches_new_span(
    rhs: Seq<SymbolView>,
    input: Seq<Seq<char>>,
    c1: Chart,
    c2: Chart,
    i: int,
    j: int,
)
    requires
        adds_only_at(c1, c2, i, j),
        0 <= i < j < 65536,
        matches_to(rhs, input, c2, 0, i, j),
    ensures
        matches_to(rhs, input, c1, 0, i, j) || (rhs.len() == 1 && rhs[0] is NT && chart_has(
            c2,
            rhs[0]->NT_0,
            i,
            j,
        )),
{
    if rhs.len() > 0 {
        match rhs[0] {
            SymbolView::T(w) => {
                lemma_matches_frame(rhs, input, c1, c2, 1, i + 1, j, i + 1, i, j);
            },
            SymbolView::NT(s, _) => {
                let q = choose|q: int|
                    i < q <= j && #[trigger] chart_has(c2, s, i, q) && matches_to(
                        rhs,
                        input,
                        c2,
                        1,
                        q,
                        j,
                    );
                assert(c2.rights(s, i as u16).contains(q as u16));
                if c1.rights(s, i as u16).contains(q as u16) {
                    lemma_matches_frame(rhs, input, c1, c2, 1, q, j, q, i, j);
                    assert(chart_has(c1, s, i, q));
                } else {
                    assert(q == j);
                    lemma_matches_len(rhs, input, c2, 1, q, j);
                }
            },
        }
    }
}

/// Matching over a run of words: the words match the input and the
/// match goes on after them.
pub proof fn lemma_matches_run(
    rhs: Seq<SymbolView>,
    input: Seq<Seq<char>>,
    chart: Chart,
    d: int,
    p: int,
    j: int,
)
    requires
        matches_to(rhs, input, chart, d, p, j),
    ensures
        run_matches(rhs, input, d, p, j),
        matches_to(rhs, input, chart, run_end(rhs, d), p + (run_end(rhs, d) - d), j),
    decreases rhs.len() - d,
{
    if 0 <= d < rhs.len() && rhs[d] is T {
        lemma_matches_run(rhs, input, chart, d + 1, p + 1, j);
    }
}

/// `adds_only_at` composes.
pub proof fn lemma_adds_trans(c1: Chart, c2: Chart, c3: Chart, i: int, j: int)
    requires
        adds_only_at(c1, c2, i, j),
        adds_only_at(c2, c3, i, j),
    ensures
        adds_only_at(c1, c3, i, j),
{
    assert forall|s: Seq<char>, l: u16, r: u16| #[trigger] c3.rights(s, l).contains(r) implies c1.rights(
        s,
        l,
    ).contains(r) || (l == i as u16 && r == j as u16) by {
        if !(l == i as u16 && r == j as u16) {
            assert(c2.rights(s, l).contains(r));
        }
    }
}

/// `fresh_listed` composes when the later list extends the earlier one.
pub proof fn lemma_fresh_trans(
    c1: Chart,
    c2: Chart,
    c3: Chart,
    s2: Seq<Seq<char>>,
    s3: Seq<Seq<char>>,
    i: int,
    j: int,
)
    requires
        fresh_listed(c1, c2, s2, i, j),
        fresh_listed(c2, c3, s3, i, j),
        index_grows(c2, c3),
        s2.len() <= s3.len(),
        s3.take(s2.len() as int) == s2,
    ensures
        fresh_listed(c1, c3, s3, i, j),
{
    assert forall|s: Seq<char>| #[trigger] chart_has(c3, s, i, j) && !chart_has(c1, s, i, j) implies s3.contains(s) by {
        if chart_has(c2, s, i, j) {
            let k = choose|k: int| 0 <= k < s2.len() && s2[k] == s;
            assert(s3[k] == s3.take(s2.len() as int)[k]);
        }
    }
}

} // verus!
verus! {

/// The right ends `<= j` recorded for `symbol` at `k`, in recorded order.
fn rights_within(passive: &Chart, symbol: &str, k: usize, j: usize) -> (r: Vec<u16>)
    requires
        passive.inv(),
    ensures
        forall|q: int|
            0 <= q < r@.len() ==> passive.rights(symbol@, k as u16).contains(#[trigger] r@[q])
                && r@[q] as int <= j,
        forall|e: u16|
            #[trigger] passive.rights(symbol@, k as u16).contains(e) && e as int <= j ==> r@.contains(e),
{
    let all = passive.rights_for(symbol, k);
    let mut rights: Vec<u16> = Vec::new();
    let mut z: usize = 0;
    while z < all.len()
        invariant
            z <= all@.len(),
            all@ == passive.rights(symbol@, k as u16),
            forall|q: int|
                0 <= q < rights@.len() ==> all@.contains(#[trigger] rights@[q]) && rights@[q] as int
                    <= j,
            forall|q: int| 0 <= q < z && all@[q] as int <= j ==> rights@.contains(#[trigger] all@[q]),
        decreases all.len() - z,
    {
        if (all[z] as usize) <= j {
            let ghost before = rights@;
            rights.push(all[z]);
            proof {
                assert(rights@[before.len() as int] == all@[z as int]);
                assert forall|q: int| 0 <= q <= z && all@[q] as int <= j implies rights@.contains(
                    #[trigger] all@[q],
                ) by {
                    if q < z {
                        let w = choose|w: int| 0 <= w < before.len() && before[w] == all@[q];
                        assert(rights@[w] == before[w]);
                    }
                }
                assert forall|q: int| 0 <= q < rights@.len() implies all@.contains(
                    #[trigger] rights@[q],
                ) && rights@[q] as int <= j by {
                    if q == before.len() {
                        assert(all@[z as int] == rights@[q]);
                    } else {
                        assert(rights@[q] == before[q]);
                    }
                }
            }
        }
        z += 1;
    }
    rights
}

/// The cell `(i, j)` holds an item of rule `r` with the spans `ss`, or one
/// of `kids` is pending with them.
pub open spec fn item_done_ss(
    g: Grammar,
    input: Seq<Seq<char>>,
    c0: Chart,
    cell: Seq<Item>,
    kids: Seq<Item>,
    r: int,
    ss: Seq<Option<Span>>,
    j: int,
) -> bool {
    ||| has_item(cell, r, ss)
    ||| exists|z: int| 0 <= z < kids.len() && #[trigger] pending_ss(g, input, c0, kids[z], ss, j)
}

proof fn lemma_done_ss_grows(
    g: Grammar,
    input: Seq<Seq<char>>,
    c0: Chart,
    cell1: Seq<Item>,
    cell2: Seq<Item>,
    k1: Seq<Item>,
    k2: Seq<Item>,
    r: int,
    ss: Seq<Option<Span>>,
    j: int,
)
    requires
        item_done_ss(g, input, c0, cell1, k1, r, ss, j),
        cell1.len() <= cell2.len(),
        cell2.take(cell1.len() as int) == cell1,
        k1.len() <= k2.len(),
        forall|z: int| 0 <= z < k1.len() ==> k2[z] == k1[z],
    ensures
        item_done_ss(g, input, c0, cell2, k2, r, ss, j),
{
    if has_item(cell1, r, ss) {
        lemma_has_item_grows(cell1, cell2, r, ss);
    } else {
        let z = choose|z: int| 0 <= z < k1.len() && #[trigger] pending_ss(g, input, c0, k1[z], ss, j);
        assert(k2[z] == k1[z]);
    }
}

/// A pending item's next nonterminal comes with its entry in `ss`, after
/// which the words match.
proof fn lemma_ss_pre(g: Grammar, input: Seq<Seq<char>>, c0: Chart, item: Item, ss: Seq<Option<Span>>, j: int)
    requires
        pending_ss(g, input, c0, item, ss, j),
    ensures
        ({
            let rv = rule_rhs(g, item.rule_idx as int);
            let d = item.dot as int;
            let r0 = ss[d]->0.right as int;
            &&& ss[d] is Some
            &&& ss[d]->0.left == item.right
            &&& item.right < r0 <= j
            &&& chart_has(c0, rv[d]->NT_0, item.right as int, r0)
            &&& run_matches(rv, input, d + 1, r0, j)
            &&& forall|k: int| d + 1 <= k < run_end(rv, d + 1) ==> (#[trigger] ss[k]) is None
            &&& matches_spans(rv, input, c0, ss, run_end(rv, d + 1), r0 + (run_end(rv, d + 1) - d - 1), j)
        }),
{
    let rv = rule_rhs(g, item.rule_idx as int);
    let d = item.dot as int;
    let r0 = ss[d]->0.right as int;
    lemma_spans_run(rv, input, c0, ss, d + 1, r0, j);
}

/// Moving a pending item over its next nonterminal, as `ss` says, and over
/// the words that follow, completes it with the spans `ss` or leaves it
/// pending with them.
proof fn lemma_ss_post(
    g: Grammar,
    input: Seq<Seq<char>>,
    c0: Chart,
    item: Item,
    ss: Seq<Option<Span>>,
    ni: Item,
    l: int,
    j: int,
)
    requires
        pending_ss(g, input, c0, item, ss, j),
        ss[item.dot as int]->0.right == l,
        j < 65536,
        ni.rule_idx == item.rule_idx,
        ni.tail_spans@ == item.tail_spans@.update(
            item.dot as int,
            Some(Span { left: item.right as i32, right: l as i32 }),
        ),
        ni.dot == run_end(rule_rhs(g, item.rule_idx as int), item.dot + 1),
        ni.right == l + (ni.dot - item.dot - 1),
    ensures
        ni.dot == rule_rhs(g, item.rule_idx as int).len() ==> ni.right == j && ni.tail_spans@ == ss,
        ni.dot < rule_rhs(g, item.rule_idx as int).len() ==> pending_ss(g, input, c0, ni, ss, j)
            && ni.right + (rule_rhs(g, item.rule_idx as int).len() - ni.dot) <= j,
{
    let rv = rule_rhs(g, item.rule_idx as int);
    let d = item.dot as int;
    lemma_ss_pre(g, input, c0, item, ss, j);
    lemma_run(rv, input, d + 1, l, j);
    assert(ss[d]->0 == Span { left: item.right as i32, right: l as i32 });
    assert forall|k: int| 0 <= k < ni.dot implies #[trigger] ni.tail_spans@[k] == ss[k] by {
        if k < d {
            assert(ni.tail_spans@[k] == item.tail_spans@[k]);
        } else if k > d {
            assert(rv[k] is T);
            assert(ni.tail_spans@[k] == item.tail_spans@[k]);
        }
    }
    assert forall|k: int| ni.dot <= k < rv.len() && rv[k] is T implies (#[trigger] ni.tail_spans@[k]) is None by {
        assert(ni.tail_spans@[k] == item.tail_spans@[k]);
    }
    if ni.dot == rv.len() {
        assert(ni.tail_spans@ =~= ss);
    } else {
        lemma_spans_matches(rv, input, c0, ss, ni.dot as int, ni.right as int, j);
        lemma_matches_len(rv, input, c0, ni.dot as int, ni.right as int, j);
    }
}

/// The category of rule `r` is recorded over `(i, j)`, or one of `kids`
/// is pending.
pub open spec fn item_done(
    g: Grammar,
    input: Seq<Seq<char>>,
    c0: Chart,
    chart: Chart,
    kids: Seq<Item>,
    r: int,
    i: int,
    j: int,
) -> bool {
    ||| chart_has(chart, category(g, r), i, j)
    ||| exists|z: int| 0 <= z < kids.len() && #[trigger] pending(g, input, c0, kids[z], j)
}

proof fn lemma_done_grows(
    g: Grammar,
    input: Seq<Seq<char>>,
    c0: Chart,
    c1: Chart,
    c2: Chart,
    k1: Seq<Item>,
    k2: Seq<Item>,
    r: int,
    i: int,
    j: int,
)
    requires
        item_done(g, input, c0, c1, k1, r, i, j),
        index_grows(c1, c2),
        k1.len() <= k2.len(),
        forall|z: int| 0 <= z < k1.len() ==> k2[z] == k1[z],
    ensures
        item_done(g, input, c0, c2, k2, r, i, j),
{
    if chart_has(c1, category(g, r), i, j) {
        assert(c1.rights(category(g, r), i as u16).contains(j as u16));
    } else {
        let z = choose|z: int| 0 <= z < k1.len() && #[trigger] pending(g, input, c0, k1[z], j);
        assert(k2[z] == k1[z]);
    }
}

/// Works an item of the active cell `(i, j)` through: when a nonterminal
/// follows its dot, it is moved over each recorded span of that
/// nonterminal that starts at its right end and ends by `j`, then over the
/// words that follow; an item that then covers `(i, j)` completely goes to
/// the passive chart, an item that can still fit in `(i, j)` is worked
/// through in turn (the last one first, as on a stack), and an item that
/// yields nothing is kept in `remaining`. When the rest of the item can be
/// matched up to `j` with what the chart records, its category ends up
/// recorded over `(i, j)`.
fn process(
    item: Item,
    input: &[String],
    n: usize,
    i: usize,
    j: usize,
    grammar: &Grammar,
    passive: &mut Chart,
    new_symbols: &mut Vec<String>,
    remaining: &mut Vec<Item>,
    Ghost(sound): Ghost<bool>,
    Ghost(es): Ghost<Set<(Seq<char>, u16, u16)>>,
    Ghost(gs): Ghost<Seq<Seq<char>>>,
)
    requires
        n <= input@.len(),
        i < j <= n,
        n <= old(passive).size(),
        grammar.wf(),
        gs.len() <= 65535,
        forall|s: Seq<char>| #[trigger] old(passive).known(s) ==> gs.contains(s),
        chart_in(*old(passive), es),
        next_nt(*grammar, item) ==> item_safe(
            *grammar,
            crate::text::string_views(input@),
            es,
            gs,
            item,
            i as int,
            j as int,
        ),
        rhs_lengths_fit(*grammar, n as int),
        old(passive).inv(),
        symbols_are_categories(*grammar, *old(passive)),
        sound ==> old(passive).size() < 65536 && chart_sound(
            *grammar,
            crate::text::string_views(input@),
            *old(passive),
        ),
        active_ok(
            *grammar,
            crate::text::string_views(input@),
            *old(passive),
            item,
            i as int,
            j as int,
            sound,
        ),
        symbols_found(
            *grammar,
            *old(passive),
            crate::text::string_views(old(new_symbols)@),
            i as int,
            j as int,
            sound,
        ),
        forall|q: int|
            0 <= q < old(remaining)@.len() ==> active_ok(
                *grammar,
                crate::text::string_views(input@),
                *old(passive),
                #[trigger] old(remaining)@[q],
                i as int,
                j as int,
                sound,
            ),
    ensures
        final(passive).inv(),
        final(passive).size() == old(passive).size(),
        index_grows(*old(passive), *final(passive)),
        adds_only_at(*old(passive), *final(passive), i as int, j as int),
        symbols_are_categories(*grammar, *final(passive)),
        sound ==> chart_sound(*grammar, crate::text::string_views(input@), *final(passive)),
        forall|a: int, b: int|
            0 <= a <= old(passive).size() && 0 <= b <= old(passive).size() && !(a == i && b == j)
                ==> #[trigger] final(passive).cell(a, b) == old(passive).cell(a, b),
        cell_grows(
            old(passive).cell(i as int, j as int),
            final(passive).cell(i as int, j as int),
            *grammar,
            i as int,
            j as int,
        ),
        symbols_found(
            *grammar,
            *final(passive),
            crate::text::string_views(final(new_symbols)@),
            i as int,
            j as int,
            sound,
        ),
        fresh_listed(
            *old(passive),
            *final(passive),
            crate::text::string_views(final(new_symbols)@),
            i as int,
            j as int,
        ),
        crate::text::string_views(final(new_symbols)@).take(old(new_symbols)@.len() as int)
            == crate::text::string_views(old(new_symbols)@),
        old(new_symbols)@.len() <= final(new_symbols)@.len(),
        forall|q: int|
            0 <= q < final(remaining)@.len() ==> active_ok(
                *grammar,
                crate::text::string_views(input@),
                *final(passive),
                #[trigger] final(remaining)@[q],
                i as int,
                j as int,
                sound,
            ),
        j < 65536 && pending(*grammar, crate::text::string_views(input@), *old(passive), item, j as int)
            ==> chart_has(*final(passive), category(*grammar, item.rule_idx as int), i as int, j as int),
        forall|s: Seq<char>| #[trigger] final(passive).known(s) ==> gs.contains(s),
        chart_in(*final(passive), es),
        forall|ss: Seq<Option<Span>>|
            j < 65536 && #[trigger] pending_ss(
                *grammar,
                crate::text::string_views(input@),
                *old(passive),
                item,
                ss,
                j as int,
            ) ==> has_item(final(passive).cell(i as int, j as int), item.rule_idx as int, ss),
    decreases rule_rhs(*grammar, item.rule_idx as int).len() - item.dot,
{
    let ghost g = *grammar;
    let ghost inp = crate::text::string_views(input@);
    let ghost c0 = *passive;
    let ghost syms0 = crate::text::string_views(new_symbols@);
    let ghost rem0 = remaining@;
    let ghost ri = item.rule_idx as int;
    let ghost want = j < 65536 && pending(g, inp, c0, item, j as int);
    let ghost it = item;
    let rhs = &grammar.rules[item.rule_idx].rhs;
    let ghost rv = rule_rhs(g, item.rule_idx as int);
    assert(rv == syms_view(rhs@));
    let mut advanced = false;
    let mut children: Vec<Item> = Vec::new();
    proof {
        assert(c0.cell(i as int, j as int).take(c0.cell(i as int, j as int).len() as int) =~= c0.cell(
            i as int,
            j as int,
        ));
        assert(cell_grows(c0.cell(i as int, j as int), passive.cell(i as int, j as int), g, i as int, j as int));
        assert(syms0.take(syms0.len() as int) =~= syms0);
    }
    if item.dot < rhs.len() && rhs[item.dot].is_nt() {
        let wanted = rhs[item.dot].nt_symbol();
        let k = item.right;
        let rights = rights_within(passive, wanted, k, j);
        let ghost cx = *passive;
        let mut q: usize = 0;
        while q < rights.len()
            invariant
                q <= rights@.len(),
                g == *grammar,
                inp == crate::text::string_views(input@),
                rv == rule_rhs(g, item.rule_idx as int),
                rv == syms_view(rhs@),
                ri == item.rule_idx,
                n <= input@.len(),
                i < j <= n,
                n <= c0.size(),
                g.wf(),
                gs.len() <= 65535,
                forall|s: Seq<char>| #[trigger] passive.known(s) ==> gs.contains(s),
                chart_in(*passive, es),
                item_safe(g, inp, es, gs, item, i as int, j as int),
                forall|z: int| 0 <= z < children@.len() ==> item_safe(g, inp, es, gs, #[trigger] children@[z], i as int, j as int),
                rhs_lengths_fit(g, n as int),
                item.dot < rv.len(),
                rv[item.dot as int] == SymbolView::NT(wanted@, rv[item.dot as int]->NT_1),
                k == item.right,
                cx == c0,
                active_ok(g, inp, c0, item, i as int, j as int, sound),
                forall|z: int|
                    0 <= z < rights@.len() ==> cx.rights(wanted@, k as u16).contains(
                        #[trigger] rights@[z],
                    ) && rights@[z] as int <= j,
                passive.inv(),
                passive.size() == c0.size(),
                index_grows(c0, *passive),
                adds_only_at(c0, *passive, i as int, j as int),
                symbols_are_categories(g, *passive),
                sound ==> c0.size() < 65536 && chart_sound(g, inp, *passive),
                forall|a: int, b: int|
                    0 <= a <= c0.size() && 0 <= b <= c0.size() && !(a == i && b == j)
                        ==> #[trigger] passive.cell(a, b) == c0.cell(a, b),
                cell_grows(
                    c0.cell(i as int, j as int),
                    passive.cell(i as int, j as int),
                    g,
                    i as int,
                    j as int,
                ),
                symbols_found(
                    g,
                    *passive,
                    crate::text::string_views(new_symbols@),
                    i as int,
                    j as int,
                    sound,
                ),
                fresh_listed(c0, *passive, crate::text::string_views(new_symbols@), i as int, j as int),
                crate::text::string_views(new_symbols@).take(syms0.len() as int) == syms0,
                syms0.len() <= new_symbols@.len(),
                remaining@ == rem0,
                forall|z: int|
                    0 <= z < children@.len() ==> active_ok(
                        g,
                        inp,
                        *passive,
                        #[trigger] children@[z],
                        i as int,
                        j as int,
                        sound,
                    ) && children@[z].rule_idx == item.rule_idx && children@[z].dot > item.dot,
                j < 65536 ==> forall|z: int|
                    0 <= z < q && #[trigger] matches_to(rv, inp, c0, item.dot + 1, rights@[z] as int, j as int)
                        ==> item_done(g, inp, c0, *passive, children@, ri, i as int, j as int),
                j < 65536 ==> forall|z: int, ss: Seq<Option<Span>>|
                    #![trigger pending_ss(g, inp, c0, item, ss, j as int), rights@[z]]
                    0 <= z < q && pending_ss(g, inp, c0, item, ss, j as int) && ss[item.dot as int]->0.right
                        as int == rights@[z] as int ==> item_done_ss(
                        g,
                        inp,
                        c0,
                        passive.cell(i as int, j as int),
                        children@,
                        ri,
                        ss,
                        j as int,
                    ),
            decreases rights.len() - q,
        {
            let l = rights[q] as usize;
            let mut new_item = item.advance(item.left, l, item.dot + 1);
            let sp = Span { left: #[verifier::truncate] (k as i32), right: l as i32 };
            new_item.tail_spans.set(item.dot, Some(sp));
            let ghost spans1 = new_item.tail_spans@;
            let ghost cq = *passive;
            let ghost kq = children@;
            let ghost hit = j < 65536 && matches_to(rv, inp, c0, item.dot + 1, l as int, j as int);
            proof {
                // the item is matched up to its new dot
                if sound {
                    lemma_reach_spans(rv, item.tail_spans@, spans1, inp, cq, i as int, item.dot as nat);
                    lemma_reach_grows(rv, item.tail_spans@, inp, c0, cq, i as int, item.dot as nat);
                    assert(k <= j && j <= c0.size() && c0.size() < 65536);
                    assert(sp.left == k);
                    assert(cx.rights(wanted@, k as u16).contains(rights@[q as int]));
                    assert(cq.rights(wanted@, k as u16).contains(rights@[q as int]));
                    assert((sp.right as int) as u16 == rights@[q as int]);
                    assert(reach(rv, spans1, inp, cq, i as int, (item.dot + 1) as nat) == Some(
                        l as int,
                    ));
                }
                if hit {
                    lemma_matches_run(rv, inp, c0, item.dot + 1, l as int, j as int);
                }
            }
            let okscan = scan(&mut new_item, input, j, grammar);
            let ghost ni0 = new_item;
            if okscan {
                proof {
                    lemma_run(rv, inp, (item.dot + 1) as int, l as int, j as int);
                    if sound {
                        lemma_reach_run(
                            rv,
                            spans1,
                            inp,
                            cq,
                            i as int,
                            (item.dot + 1) as nat,
                            l as int,
                            j as int,
                        );
                    }
                    if hit {
                        assert(matches_to(rv, inp, c0, new_item.dot as int, new_item.right as int, j as int));
                        lemma_matches_len(rv, inp, c0, new_item.dot as int, new_item.right as int, j as int);
                    }
                }
                if new_item.dot == rhs.len() {
                    if new_item.left == i && new_item.right == j {
                        let ghost sva = crate::text::string_views(new_symbols@);
                        proof {
                            assert(new_item.tail_spans@ == spans1);
                            assert(item_complete(g, new_item, i as int, j as int));
                            assert(es.contains((wanted@, k as u16, l as u16)));
                            lemma_child_safe(g, inp, es, gs, item, new_item, wanted@, l as int, i as int, j as int);
                            assert(completes_ok(g, es, gs, ri, i as int, j as int));
                        }
                        let sym = grammar.rules[new_item.rule_idx].lhs.nt_symbol();
                        let ghost ni = new_item;
                        record(
                            new_item,
                            i,
                            j,
                            sym,
                            grammar,
                            passive,
                            new_symbols,
                            Ghost(inp),
                            Ghost(sound),
                            Ghost(gs),
                        );
                        proof {
                            let cb = *passive;
                            assert(cb.cell(i as int, j as int)[cq.cell(i as int, j as int).len() as int] == ni);
                            assert(has_item(cb.cell(i as int, j as int), ri, ni.tail_spans@));
                            lemma_chart_in_added(cq, cb, ni, i as int, j as int, category(g, ri), es);
                            let sv = crate::text::string_views(new_symbols@);
                            lemma_index_trans(c0, cq, cb);
                            lemma_adds_trans(c0, cq, cb, i as int, j as int);
                            lemma_fresh_trans(c0, cq, cb, sva, sv, i as int, j as int);
                            assert(sv.take(syms0.len() as int) =~= sv.take(sva.len() as int).take(
                                syms0.len() as int,
                            ));
                            lemma_added_grows(g, cq, cb, ni, i as int, j as int, category(g, ri));
                            lemma_cell_trans(
                                c0.cell(i as int, j as int),
                                cq.cell(i as int, j as int),
                                cb.cell(i as int, j as int),
                                g,
                                i as int,
                                j as int,
                            );
                            assert forall|z: int| 0 <= z < children@.len() implies active_ok(
                                g,
                                inp,
                                cb,
                                #[trigger] children@[z],
                                i as int,
                                j as int,
                                sound,
                            ) && children@[z].rule_idx == item.rule_idx && children@[z].dot > item.dot by {
                                lemma_active_grows(g, inp, cq, cb, children@[z], i as int, j as int, sound);
                            }
                        }
                        advanced = true;
                    }
                } else if new_item.right + (rhs.len() - new_item.dot) <= j {
                    proof {
                        assert(new_item.tail_spans@ == spans1);
                        assert(active_ok(g, inp, cq, new_item, i as int, j as int, sound));
                        lemma_run(rv, inp, (item.dot + 1) as int, l as int, j as int);
                        assert(es.contains((wanted@, k as u16, l as u16)));
                        lemma_child_safe(g, inp, es, gs, item, new_item, wanted@, l as int, i as int, j as int);
                    }
                    children.push(new_item);
                    proof {
                        assert(children@[kq.len() as int] == new_item);
                        if hit {
                            assert(pending(g, inp, c0, children@[kq.len() as int], j as int));
                        }
                    }
                    advanced = true;
                }
            }
            proof {
                let cn = *passive;
                if j < 65536 {
                    assert(cq.cell(i as int, j as int).len() <= cn.cell(i as int, j as int).len()
                        && cn.cell(i as int, j as int).take(cq.cell(i as int, j as int).len() as int)
                        == cq.cell(i as int, j as int)) by {
                        let o = c0.cell(i as int, j as int);
                        if cn != cq {
                            assert(cn.cell(i as int, j as int) == cq.cell(i as int, j as int).push(ni0));
                            assert(cn.cell(i as int, j as int).take(cq.cell(i as int, j as int).len() as int)
                                =~= cq.cell(i as int, j as int));
                        } else {
                            assert(cq.cell(i as int, j as int).take(cq.cell(i as int, j as int).len() as int)
                                =~= cq.cell(i as int, j as int));
                        }
                    }
                    assert forall|z: int, ss: Seq<Option<Span>>|
                        #![trigger pending_ss(g, inp, c0, item, ss, j as int), rights@[z]]
                        0 <= z < q + 1 && pending_ss(g, inp, c0, item, ss, j as int)
                            && ss[item.dot as int]->0.right as int == rights@[z] as int implies item_done_ss(
                        g,
                        inp,
                        c0,
                        cn.cell(i as int, j as int),
                        children@,
                        ri,
                        ss,
                        j as int,
                    ) by {
                        if z < q {
                            lemma_done_ss_grows(
                                g,
                                inp,
                                c0,
                                cq.cell(i as int, j as int),
                                cn.cell(i as int, j as int),
                                kq,
                                children@,
                                ri,
                                ss,
                                j as int,
                            );
                        } else {
                            lemma_ss_pre(g, inp, c0, item, ss, j as int);
                            assert(okscan);
                            assert(spans1 == item.tail_spans@.update(
                                item.dot as int,
                                Some(Span { left: item.right as i32, right: l as i32 }),
                            ));
                            lemma_ss_post(g, inp, c0, item, ss, ni0, l as int, j as int);
                            if ni0.dot == rv.len() {
                                assert(has_item(cn.cell(i as int, j as int), ri, ss));
                            } else {
                                assert(children@[kq.len() as int] == ni0);
                                assert(pending_ss(g, inp, c0, children@[kq.len() as int], ss, j as int));
                            }
                        }
                    }
                    assert forall|z: int|
                        0 <= z < q + 1 && #[trigger] matches_to(
                            rv,
                            inp,
                            c0,
                            item.dot + 1,
                            rights@[z] as int,
                            j as int,
                        ) implies item_done(g, inp, c0, cn, children@, ri, i as int, j as int) by {
                        if z < q {
                            lemma_done_grows(g, inp, c0, cq, cn, kq, children@, ri, i as int, j as int);
                        } else {
                            assert(hit);
                        }
                    }
                }
            }
            q += 1;
        }
        proof {
            if want {
                let s = wanted@;
                assert(matches_to(rv, inp, c0, item.dot as int, item.right as int, j as int));
                let ql = choose|ql: int|
                    item.right < ql <= j && #[trigger] chart_has(c0, s, item.right as int, ql)
                        && matches_to(rv, inp, c0, item.dot + 1, ql, j as int);
                assert(c0.rights(wanted@, k as u16).contains(ql as u16));
                assert(rights@.contains(ql as u16));
                let z = choose|z: int| 0 <= z < rights@.len() && rights@[z] == ql as u16;
                assert(rights@[z] as int == ql);
            }
            if j < 65536 {
                assert forall|ss: Seq<Option<Span>>| #[trigger] pending_ss(g, inp, c0, item, ss, j as int) implies item_done_ss(
                    g,
                    inp,
                    c0,
                    passive.cell(i as int, j as int),
                    children@,
                    ri,
                    ss,
                    j as int,
                ) by {
                    lemma_ss_pre(g, inp, c0, item, ss, j as int);
                    let r0 = ss[item.dot as int]->0.right as int;
                    assert(c0.rights(wanted@, k as u16).contains(r0 as u16));
                    assert(rights@.contains(r0 as u16));
                    let z = choose|z: int| 0 <= z < rights@.len() && rights@[z] == r0 as u16;
                    assert(rights@[z] as int == r0);
                }
            }
        }
    }
    let ghost c1 = *passive;
    if !advanced {
        remaining.push(item);
    }
    proof {
        assert forall|z: int| 0 <= z < remaining@.len() implies active_ok(
            g,
            inp,
            c1,
            #[trigger] remaining@[z],
            i as int,
            j as int,
            sound,
        ) by {
            if z < rem0.len() {
                lemma_active_grows(g, inp, c0, c1, rem0[z], i as int, j as int, sound);
            } else {
                lemma_active_grows(g, inp, c0, c1, item, i as int, j as int, sound);
            }
        }
        if !(it.dot < rv.len() && rv[it.dot as int] is NT) {
            assert(!want);
        }
    }
    while children.len() > 0
        invariant
            g == *grammar,
            inp == crate::text::string_views(input@),
            ri == item.rule_idx,
            n <= input@.len(),
            i < j <= n,
            n <= c0.size(),
            g.wf(),
            gs.len() <= 65535,
            forall|s: Seq<char>| #[trigger] passive.known(s) ==> gs.contains(s),
            chart_in(*passive, es),
            forall|z: int| 0 <= z < children@.len() ==> item_safe(g, inp, es, gs, #[trigger] children@[z], i as int, j as int),
            rhs_lengths_fit(g, n as int),
            passive.inv(),
            passive.size() == c0.size(),
            index_grows(c0, *passive),
            adds_only_at(c0, *passive, i as int, j as int),
            symbols_are_categories(g, *passive),
            sound ==> c0.size() < 65536 && chart_sound(g, inp, *passive),
            forall|a: int, b: int|
                0 <= a <= c0.size() && 0 <= b <= c0.size() && !(a == i && b == j)
                    ==> #[trigger] passive.cell(a, b) == c0.cell(a, b),
            cell_grows(c0.cell(i as int, j as int), passive.cell(i as int, j as int), g, i as int, j as int),
            symbols_found(
                g,
                *passive,
                crate::text::string_views(new_symbols@),
                i as int,
                j as int,
                sound,
            ),
            fresh_listed(c0, *passive, crate::text::string_views(new_symbols@), i as int, j as int),
            crate::text::string_views(new_symbols@).take(syms0.len() as int) == syms0,
            syms0.len() <= new_symbols@.len(),
            forall|z: int|
                0 <= z < remaining@.len() ==> active_ok(
                    g,
                    inp,
                    *passive,
                    #[trigger] remaining@[z],
                    i as int,
                    j as int,
                    sound,
                ),
            forall|z: int|
                0 <= z < children@.len() ==> active_ok(
                    g,
                    inp,
                    *passive,
                    #[trigger] children@[z],
                    i as int,
                    j as int,
                    sound,
                ) && children@[z].rule_idx == item.rule_idx && children@[z].dot > item.dot,
            item.dot <= rule_rhs(g, item.rule_idx as int).len(),
            want ==> item_done(g, inp, c0, *passive, children@, ri, i as int, j as int),
            want ==> j < 65536,
            j < 65536 ==> forall|ss: Seq<Option<Span>>| #[trigger]
                pending_ss(g, inp, c0, it, ss, j as int) ==> item_done_ss(
                    g,
                    inp,
                    c0,
                    passive.cell(i as int, j as int),
                    children@,
                    ri,
                    ss,
                    j as int,
                ),
            forall|z: int| 0 <= z < children@.len() ==> (#[trigger] children@[z]).rule_idx == ri,
        decreases children.len(),
    {
        let ghost kc = children@;
        let c = children.pop().unwrap();
        let ghost cc = *passive;
        let ghost svc = crate::text::string_views(new_symbols@);
        let ghost kids = children@;
        proof {
            assert(c == kc[kids.len() as int]);
            assert(kids =~= kc.drop_last());
            if want {
                if !chart_has(cc, category(g, ri), i as int, j as int) {
                    let z = choose|z: int| 0 <= z < kc.len() && #[trigger] pending(g, inp, c0, kc[z], j as int);
                    if z == kids.len() {
                        lemma_matches_grows(
                            rule_rhs(g, c.rule_idx as int),
                            inp,
                            c0,
                            cc,
                            c.dot as int,
                            c.right as int,
                            j as int,
                        );
                        assert(pending(g, inp, cc, c, j as int));
                    }
                }
            }
        }
        process(c, input, n, i, j, grammar, passive, new_symbols, remaining, Ghost(sound), Ghost(es), Ghost(gs));
        proof {
            let cd = *passive;
            if j < 65536 {
                assert forall|ss: Seq<Option<Span>>| #[trigger] pending_ss(g, inp, c0, it, ss, j as int) implies item_done_ss(
                    g,
                    inp,
                    c0,
                    cd.cell(i as int, j as int),
                    children@,
                    ri,
                    ss,
                    j as int,
                ) by {
                    let occ = cc.cell(i as int, j as int);
                    let ocd = cd.cell(i as int, j as int);
                    assert(ocd.take(occ.len() as int) =~= ocd.take(occ.len() as int));
                    if has_item(occ, ri, ss) {
                        lemma_has_item_grows(occ, ocd, ri, ss);
                    } else {
                        let z = choose|z: int| 0 <= z < kc.len() && #[trigger] pending_ss(g, inp, c0, kc[z], ss, j as int);
                        if z == kids.len() {
                            lemma_spans_grows(
                                rule_rhs(g, c.rule_idx as int),
                                inp,
                                c0,
                                cc,
                                ss,
                                c.dot as int,
                                c.right as int,
                                j as int,
                            );
                            assert(pending_ss(g, inp, cc, c, ss, j as int));
                        } else {
                            assert(kc[z] == kids[z]);
                            assert(children@[z] == kids[z]);
                        }
                    }
                }
            }
            let sv = crate::text::string_views(new_symbols@);
            assert forall|z: int| 0 <= z < children@.len() implies active_ok(
                g,
                inp,
                cd,
                #[trigger] children@[z],
                i as int,
                j as int,
                sound,
            ) && children@[z].rule_idx == item.rule_idx && children@[z].dot > item.dot by {
                assert(children@[z] == kids[z]);
                lemma_active_grows(g, inp, cc, cd, kids[z], i as int, j as int, sound);
            }
            lemma_index_trans(c0, cc, cd);
            lemma_adds_trans(c0, cc, cd, i as int, j as int);
            lemma_fresh_trans(c0, cc, cd, svc, sv, i as int, j as int);
            assert(sv.take(syms0.len() as int) =~= sv.take(svc.len() as int).take(syms0.len() as int));
            let o = c0.cell(i as int, j as int);
            let oc = cc.cell(i as int, j as int);
            let od = cd.cell(i as int, j as int);
            assert(od.take(o.len() as int) =~= od.take(oc.len() as int).take(o.len() as int));
            assert forall|z: int| o.len() <= z < od.len() implies item_complete(
                g,
                #[trigger] od[z],
                i as int,
                j as int,
            ) by {
                if z < oc.len() {
                    assert(od[z] == od.take(oc.len() as int)[z]);
                }
            }
            if want {
                if chart_has(cc, category(g, ri), i as int, j as int) {
                    assert(cc.rights(category(g, ri), i as u16).contains(j as u16));
                    assert(chart_has(cd, category(g, ri), i as int, j as int));
                } else {
                    let z = choose|z: int| 0 <= z < kc.len() && #[trigger] pending(g, inp, c0, kc[z], j as int);
                    if z < kids.len() {
                        assert(kc[z] == kids[z]);
                        assert(children@[z] == kids[z]);
                        assert(pending(g, inp, c0, children@[z], j as int));
                    } else {
                        assert(c.rule_idx == ri);
                    }
                }
            }
        }
    }
}

} // verus!
verus! {

// ------------------------------------------------------------ parse steps

/// Every item of the active chart over a span `(a, b)` with `a < b <= n`
/// is a partial item of that cell.
pub open spec fn actives_ok(
    g: Grammar,
    input: Seq<Seq<char>>,
    active: Chart,
    passive: Chart,
    n: int,
    sound: bool,
) -> bool {
    forall|a: int, b: int, q: int|
        0 <= a < b <= n && 0 <= q < active.cell(a, b).len() ==> active_ok(
            g,
            input,
            passive,
            #[trigger] active.cell(a, b)[q],
            a,
            b,
            sound,
        )
}

proof fn lemma_actives_grow(
    g: Grammar,
    input: Seq<Seq<char>>,
    active: Chart,
    c1: Chart,
    c2: Chart,
    n: int,
    sound: bool,
)
    requires
        index_grows(c1, c2),
        actives_ok(g, input, active, c1, n, sound),
    ensures
        actives_ok(g, input, active, c2, n, sound),
{
    assert forall|a: int, b: int, q: int|
        0 <= a < b <= n && 0 <= q < active.cell(a, b).len() implies active_ok(
        g,
        input,
        c2,
        #[trigger] active.cell(a, b)[q],
        a,
        b,
        sound,
    ) by {
        lemma_active_grows(g, input, c1, c2, active.cell(a, b)[q], a, b, sound);
    }
}

proof fn lemma_index_trans(c1: Chart, c2: Chart, c3: Chart)
    requires
        index_grows(c1, c2),
        index_grows(c2, c3),
    ensures
        index_grows(c1, c3),
{
    assert forall|s: Seq<char>, l: u16, r: u16| #[trigger] c1.rights(s, l).contains(r) implies c3.rights(
        s,
        l,
    ).contains(r) by {
        assert(c2.rights(s, l).contains(r));
    }
}

proof fn lemma_cell_trans(o: Seq<Item>, m: Seq<Item>, f: Seq<Item>, g: Grammar, i: int, j: int)
    requires
        cell_grows(o, m, g, i, j),
        cell_grows(m, f, g, i, j),
    ensures
        cell_grows(o, f, g, i, j),
{
    assert(f.take(o.len() as int) =~= f.take(m.len() as int).take(o.len() as int));
    assert forall|z: int| o.len() <= z < f.len() implies item_complete(g, #[trigger] f[z], i, j) by {
        if z < m.len() {
            assert(f[z] == f.take(m.len() as int)[z]);
        }
    }
}

/// There are no more distinct categories than rules.
proof fn lemma_found_bound(g: Grammar, syms: Seq<Seq<char>>)
    requires
        syms.no_duplicates(),
        forall|k: int| 0 <= k < syms.len() ==> is_category(g, #[trigger] syms[k]),
    ensures
        syms.len() <= g.rules@.len(),
{
    let gs = Seq::new(g.rules@.len(), |r: int| category(g, r));
    assert forall|k: int| 0 <= k < syms.len() implies gs.contains(#[trigger] syms[k]) by {
        let r = choose|r: int| 0 <= r < g.rules@.len() && #[trigger] category(g, r) == syms[k];
        assert(gs[r] == syms[k]);
    }
    crate::text::lemma_distinct_within(syms, gs);
}

/// An item moved over an entry of `es` for the nonterminal after its dot
/// and then over matching words is safe when the item is.
proof fn lemma_child_safe(
    g: Grammar,
    input: Seq<Seq<char>>,
    es: Set<(Seq<char>, u16, u16)>,
    gs: Seq<Seq<char>>,
    item: Item,
    child: Item,
    wanted: Seq<char>,
    l: int,
    i: int,
    j: int,
)
    requires
        item_safe(g, input, es, gs, item, i, j),
        item.dot < rule_rhs(g, item.rule_idx as int).len(),
        rule_rhs(g, item.rule_idx as int)[item.dot as int] is NT,
        rule_rhs(g, item.rule_idx as int)[item.dot as int]->NT_0 == wanted,
        es.contains((wanted, item.right as u16, l as u16)),
        0 <= l <= j <= input.len(),
        child.rule_idx == item.rule_idx,
        item.dot + 1 <= child.dot <= rule_rhs(g, item.rule_idx as int).len(),
        child.right == l + (child.dot - item.dot - 1),
        child.right <= j,
        forall|k: int|
            item.dot + 1 <= k < child.dot ==> #[trigger] rule_rhs(g, item.rule_idx as int)[k]
                == SymbolView::T(input[l + (k - item.dot - 1)]),
    ensures
        item_safe(g, input, es, gs, child, i, j),
{
    let rv = rule_rhs(g, item.rule_idx as int);
    if matches_in(rv, input, es, child.dot as int, child.right as int, j) {
        lemma_matches_in_words(rv, input, es, item.dot + 1, child.dot as int, l, j);
        assert(matches_in(rv, input, es, item.dot as int, item.right as int, j));
    }
}

/// Recording an entry that `es` holds keeps the chart within `es`.
proof fn lemma_chart_in_added(c0: Chart, c1: Chart, item: Item, i: int, j: int, sym: Seq<char>, es: Set<(Seq<char>, u16, u16)>)
    requires
        chart_in(c0, es),
        chart_added(c0, c1, item, i, j, sym),
        es.contains((sym, i as u16, j as u16)),
    ensures
        chart_in(c1, es),
{
    c0.lemma_rights_increasing(sym, i as u16);
    lemma_with_right(c0.rights(sym, i as u16), j as u16);
    assert forall|s: Seq<char>, l: u16, r: u16| #[trigger] c1.rights(s, l).contains(r) implies es.contains((s, l, r)) by {
        if s == sym && l == i as u16 {
            assert(with_right(c0.rights(sym, i as u16), j as u16).contains(r));
        }
    }
}

/// Records a complete item of cell `(i, j)` in the passive chart under its
/// category `sym`, and notes `sym` among the symbols found over `(i, j)`.
fn record(
    item: Item,
    i: usize,
    j: usize,
    sym: &str,
    grammar: &Grammar,
    passive: &mut Chart,
    new_symbols: &mut Vec<String>,
    Ghost(inp): Ghost<Seq<Seq<char>>>,
    Ghost(sound): Ghost<bool>,
    Ghost(gs): Ghost<Seq<Seq<char>>>,
)
    requires
        old(passive).inv(),
        i <= old(passive).size(),
        j <= old(passive).size(),
        gs.len() <= 65535,
        forall|s: Seq<char>| #[trigger] old(passive).known(s) ==> gs.contains(s),
        gs.contains(sym@),
        symbols_are_categories(*grammar, *old(passive)),
        item_complete(*grammar, item, i as int, j as int),
        sym@ == category(*grammar, item.rule_idx as int),
        sound ==> old(passive).size() < 65536 && chart_sound(*grammar, inp, *old(passive))
            && item_sound(*grammar, inp, *old(passive), item, i as int, j as int),
        symbols_found(
            *grammar,
            *old(passive),
            crate::text::string_views(old(new_symbols)@),
            i as int,
            j as int,
            sound,
        ),
    ensures
        chart_added(*old(passive), *final(passive), item, i as int, j as int, sym@),
        index_grows(*old(passive), *final(passive)),
        symbols_are_categories(*grammar, *final(passive)),
        sound ==> chart_sound(*grammar, inp, *final(passive)),
        symbols_found(
            *grammar,
            *final(passive),
            crate::text::string_views(final(new_symbols)@),
            i as int,
            j as int,
            sound,
        ),
        crate::text::string_views(final(new_symbols)@).take(old(new_symbols)@.len() as int)
            == crate::text::string_views(old(new_symbols)@),
        old(new_symbols)@.len() <= final(new_symbols)@.len(),
        adds_only_at(*old(passive), *final(passive), i as int, j as int),
        fresh_listed(
            *old(passive),
            *final(passive),
            crate::text::string_views(final(new_symbols)@),
            i as int,
            j as int,
        ),
        chart_has(*final(passive), sym@, i as int, j as int),
        forall|s: Seq<char>| #[trigger] final(passive).known(s) ==> gs.contains(s),
{
    let ghost g = *grammar;
    proof {
        if !passive.known(sym@) {
            lemma_room_in(*passive, gs, sym@);
        }
    }
    let ghost sv0 = crate::text::string_views(new_symbols@);
    if !crate::text::contains_string(new_symbols, sym) {
        new_symbols.push(String::from_str(sym));
        proof {
            assert(crate::text::string_views(new_symbols@) =~= sv0.push(sym@));
        }
    }
    let ghost ca = *passive;
    passive.add(item, i, j, sym);
    proof {
        let cb = *passive;
        assert(chart_added(ca, cb, item, i as int, j as int, sym@));
        assert(is_category(g, sym@)) by {
            assert(category(g, item.rule_idx as int) == sym@);
        }
        lemma_added(g, ca, cb, item, i as int, j as int, sym@);
        if sound {
            lemma_add_sound(g, inp, ca, cb, item, i as int, j as int, sym@);
        }
        let sv = crate::text::string_views(new_symbols@);
        assert(sv.take(sv0.len() as int) =~= sv0);
        if sv.len() > sv0.len() {
            assert(sv[sv0.len() as int] == sym@);
        }
        assert(sv.contains(sym@));
        ca.lemma_rights_increasing(sym@, i as u16);
        lemma_with_right(ca.rights(sym@, i as u16), j as u16);
        assert forall|s: Seq<char>, l: u16, r: u16| #[trigger] cb.rights(s, l).contains(r) implies ca.rights(
            s,
            l,
        ).contains(r) || (l == i as u16 && r == j as u16) by {
            if s == sym@ && l == i as u16 {
                assert(with_right(ca.rights(sym@, i as u16), j as u16).contains(r));
            }
        }
        assert forall|s: Seq<char>| #[trigger] chart_has(cb, s, i as int, j as int) && !chart_has(
            ca,
            s,
            i as int,
            j as int,
        ) implies sv.contains(s) by {
            if s != sym@ {
                assert(cb.rights(s, i as u16) == ca.rights(s, i as u16));
            }
        }
        assert forall|z: int| 0 <= z < sv.len() implies is_category(g, #[trigger] sv[z]) by {
            if z >= sv0.len() {
                assert(sv[z] == sym@);
            }
        }
        assert forall|z: int| 0 <= z < sv.len() implies chart_has(
            cb,
            #[trigger] sv[z],
            i as int,
            j as int,
        ) by {
            if z < sv0.len() {
                assert(chart_has(ca, sv0[z], i as int, j as int));
                assert(ca.rights(sv0[z], i as u16).contains(j as u16));
            } else {
                assert(sv[z] == sym@);
            }
        }
    }
}

} // verus!
verus! {

/// Pushing a partial item of cell `(i, j)` onto that active cell keeps the
/// active chart's items partial items of their cells.
proof fn lemma_push_active(
    g: Grammar,
    input: Seq<Seq<char>>,
    a0: Chart,
    a1: Chart,
    passive: Chart,
    item: Item,
    i: int,
    j: int,
    n: int,
    sound: bool,
)
    requires
        0 <= i < j <= n <= a0.size(),
        actives_ok(g, input, a0, passive, n, sound),
        active_ok(g, input, passive, item, i, j, sound),
        a1.size() == a0.size(),
        a1.cell(i, j) == a0.cell(i, j).push(item),
        forall|a: int, b: int|
            0 <= a <= a0.size() && 0 <= b <= a0.size() && !(a == i && b == j) ==> #[trigger] a1.cell(
                a,
                b,
            ) == a0.cell(a, b),
    ensures
        actives_ok(g, input, a1, passive, n, sound),
{
    assert forall|a: int, b: int, q: int|
        0 <= a < b <= n && 0 <= q < a1.cell(a, b).len() implies active_ok(
        g,
        input,
        passive,
        #[trigger] a1.cell(a, b)[q],
        a,
        b,
        sound,
    ) by {
        if a == i && b == j {
            if q < a0.cell(a, b).len() {
                assert(a1.cell(a, b)[q] == a0.cell(a, b)[q]);
            }
        } else {
            assert(a1.cell(a, b) == a0.cell(a, b));
        }
    }
}

/// Rule `r` has a nonterminal and can be matched over `(i, j)`.
pub open spec fn seed_goal(g: Grammar, input: Seq<Seq<char>>, chart: Chart, r: int, i: int, j: int) -> bool {
    &&& 0 <= r < g.rules@.len()
    &&& has_nonterminal(g, r)
    &&& matches_to(rule_rhs(g, r), input, chart, 0, i, j)
}

/// Some item of `cell` applies rule `r` and is pending.
pub open spec fn seeded(g: Grammar, input: Seq<Seq<char>>, chart: Chart, cell: Seq<Item>, r: int, j: int) -> bool {
    exists|q: int|
        0 <= q < cell.len() && cell[q].rule_idx == r && fresh(g, cell[q]) && #[trigger] pending(
            g,
            input,
            chart,
            cell[q],
            j,
        )
}

/// A seeded item: fresh spans, and moved over the words its rule starts
/// with.
pub open spec fn fresh(g: Grammar, item: Item) -> bool {
    let rv = rule_rhs(g, item.rule_idx as int);
    &&& item.tail_spans@ == initial_spans(rv)
    &&& item.dot == run_end(rv, 0)
    &&& item.right == item.left + item.dot
}

/// A fresh item of a rule with a nonterminal that matches from its left
/// end as `ss` says is pending with `ss`.
proof fn lemma_fresh_pending(g: Grammar, input: Seq<Seq<char>>, c: Chart, item: Item, ss: Seq<Option<Span>>, j: int)
    requires
        fresh(g, item),
        item.rule_idx < g.rules@.len(),
        has_nonterminal(g, item.rule_idx as int),
        ss.len() == rule_rhs(g, item.rule_idx as int).len(),
        matches_spans(rule_rhs(g, item.rule_idx as int), input, c, ss, 0, item.left as int, j),
    ensures
        pending_ss(g, input, c, item, ss, j),
{
    let rv = rule_rhs(g, item.rule_idx as int);
    lemma_spans_run(rv, input, c, ss, 0, item.left as int, j);
    lemma_run(rv, input, 0, item.left as int, j);
    if item.dot == rv.len() {
        let k = choose|k: int| 0 <= k < rv.len() && (#[trigger] rv[k]) is NT;
        assert(rv[k] == SymbolView::T(input[item.left + k]));
    }
    assert forall|k: int| 0 <= k < item.dot implies #[trigger] item.tail_spans@[k] == ss[k] by {
        assert(rv[k] == SymbolView::T(input[item.left + k]));
    }
}

proof fn lemma_seeded_push(
    g: Grammar,
    input: Seq<Seq<char>>,
    chart: Chart,
    cell: Seq<Item>,
    x: Item,
    r: int,
    j: int,
)
    requires
        seeded(g, input, chart, cell, r, j),
    ensures
        seeded(g, input, chart, cell.push(x), r, j),
{
    let q = choose|q: int|
        0 <= q < cell.len() && cell[q].rule_idx == r && fresh(g, cell[q]) && #[trigger] pending(g, input, chart, cell[q], j);
    assert(cell.push(x)[q] == cell[q]);
}

/// A rule with a nonterminal counts one.
proof fn lemma_has_nt_count(g: Grammar, r: int)
    requires
        has_nonterminal(g, r),
    ensures
        count_nt(rule_rhs(g, r)) > 0,
{
    if count_nt(rule_rhs(g, r)) == 0 {
        crate::grammar::lemma_count_nt_zero(rule_rhs(g, r));
    }
}

/// Seeds the active cell `(i, j)`: the rules listed under the word at `i`
/// (those that start with a word and have nonterminals), moved over the
/// words they start with when these match the input below `j`; then, for
/// each category that the passive chart records at left end `i`, the rules
/// that start with it and are no longer than `j - i`, unmatched. Every rule
/// with a nonterminal that can be matched over `(i, j)` gets a pending item
/// in the cell.
fn seed(
    input: &[String],
    n: usize,
    i: usize,
    j: usize,
    active: &mut Chart,
    passive: &Chart,
    grammar: &Grammar,
    Ghost(sound): Ghost<bool>,
    Ghost(es): Ghost<Set<(Seq<char>, u16, u16)>>,
    Ghost(gs): Ghost<Seq<Seq<char>>>,
)
    requires
        n <= input@.len(),
        i < j <= n,
        n <= old(active).size(),
        grammar.wf(),
        old(active).inv(),
        passive.inv(),
        rules_safe(*grammar, crate::text::string_views(input@), es, gs, n as int),
        actives_safe(*grammar, crate::text::string_views(input@), es, gs, *old(active), n as int),
        actives_ok(
            *grammar,
            crate::text::string_views(input@),
            *old(active),
            *passive,
            n as int,
            sound,
        ),
    ensures
        actives_safe(*grammar, crate::text::string_views(input@), es, gs, *final(active), n as int),
        final(active).inv(),
        final(active).size() == old(active).size(),
        forall|a: int, b: int|
            0 <= a <= old(active).size() && 0 <= b <= old(active).size() && !(a == i && b == j)
                ==> #[trigger] final(active).cell(a, b) == old(active).cell(a, b),
        actives_ok(
            *grammar,
            crate::text::string_views(input@),
            *final(active),
            *passive,
            n as int,
            sound,
        ),
        forall|r: int|
            #[trigger] seed_goal(*grammar, crate::text::string_views(input@), *passive, r, i as int, j as int)
                ==> seeded(
                *grammar,
                crate::text::string_views(input@),
                *passive,
                final(active).cell(i as int, j as int),
                r,
                j as int,
            ),
{
    let ghost g = *grammar;
    let ghost inp = crate::text::string_views(input@);
    let ghost a0 = *active;
    let ghost w0 = inp[i as int];
    proof {
        assert(input@[i as int]@ == inp[i as int]);
    }
    match grammar.start_t_by_word.get(input[i].as_str()) {
        Some(matching) => {
            let mut t: usize = 0;
            while t < matching.len()
                invariant
                    t <= matching@.len(),
                    matching@ == g.start_t_by_word.lookup(inp[i as int]),
                    g == *grammar,
                    inp == crate::text::string_views(input@),
                    w0 == inp[i as int],
                    g.wf(),
                    n <= input@.len(),
                    i < j <= n,
                    n <= a0.size(),
                    active.inv(),
                    active.size() == a0.size(),
                    forall|a: int, b: int|
                        0 <= a <= a0.size() && 0 <= b <= a0.size() && !(a == i && b == j)
                            ==> #[trigger] active.cell(a, b) == a0.cell(a, b),
                    actives_ok(g, inp, *active, *passive, n as int, sound),
                    rules_safe(g, inp, es, gs, n as int),
                    actives_safe(g, inp, es, gs, *active, n as int),
                    forall|t2: int|
                        0 <= t2 < t && #[trigger] seed_goal(
                            g,
                            inp,
                            *passive,
                            matching@[t2] as int,
                            i as int,
                            j as int,
                        ) ==> seeded(
                            g,
                            inp,
                            *passive,
                            active.cell(i as int, j as int),
                            matching@[t2] as int,
                            j as int,
                        ),
                decreases matching.len() - t,
            {
                let ri = matching[t];
                proof {
                    assert(crate::grammar::lists_exactly(
                        g.start_t_by_word.lookup(inp[i as int]),
                        g.rules@,
                        crate::grammar::RuleKind::StartT,
                        Some(inp[i as int]),
                    ));
                    assert(matching@[t as int] == ri);
                }
                let mut new_item = Item::from_rule(ri, &grammar.rules[ri].rhs, i, i, 0);
                let ghost rv = rule_rhs(g, ri as int);
                let ghost goal = seed_goal(g, inp, *passive, ri as int, i as int, j as int);
                proof {
                    assert(new_item.tail_spans@.len() == rv.len());
                    if goal {
                        lemma_matches_run(rv, inp, *passive, 0, i as int, j as int);
                    }
                }
                let ghost ab = *active;
                if scan(&mut new_item, input, j, grammar) {
                    proof {
                        lemma_run(rv, inp, 0, i as int, j as int);
                        if sound {
                            lemma_reach_run(
                                rv,
                                new_item.tail_spans@,
                                inp,
                                *passive,
                                i as int,
                                0,
                                i as int,
                                j as int,
                            );
                        }
                        assert(active_ok(g, inp, *passive, new_item, i as int, j as int, sound));
                        if goal {
                            let k = choose|k: int| 0 <= k < rv.len() && (#[trigger] rv[k]) is NT;
                            assert(new_item.dot < rv.len());
                            assert(pending(g, inp, *passive, new_item, j as int));
                        }
                    }
                    proof {
                        if matches_in(rv, inp, es, new_item.dot as int, new_item.right as int, j as int) {
                            lemma_matches_in_words(rv, inp, es, 0, new_item.dot as int, i as int, j as int);
                            assert(crate::grammar::lists_exactly(
                                g.start_t_by_word.lookup(inp[i as int]),
                                g.rules@,
                                crate::grammar::RuleKind::StartT,
                                Some(inp[i as int]),
                            ));
                            assert(g.rules@[ri as int].arity == count_nt(rv));
                            lemma_count_has_nt(g, ri as int);
                        }
                        assert(item_safe(g, inp, es, gs, new_item, i as int, j as int));
                    }
                    active.at_mut(i, j).push(new_item);
                    proof {
                        lemma_push_active(
                            g,
                            inp,
                            ab,
                            *active,
                            *passive,
                            new_item,
                            i as int,
                            j as int,
                            n as int,
                            sound,
                        );
                        lemma_push_safe(g, inp, es, gs, ab, *active, new_item, i as int, j as int, n as int);
                        let cell = active.cell(i as int, j as int);
                        assert(cell[cell.len() - 1] == new_item);
                        assert forall|t2: int|
                            0 <= t2 <= t && #[trigger] seed_goal(
                                g,
                                inp,
                                *passive,
                                matching@[t2] as int,
                                i as int,
                                j as int,
                            ) implies seeded(g, inp, *passive, cell, matching@[t2] as int, j as int) by {
                            if t2 < t {
                                lemma_seeded_push(
                                    g,
                                    inp,
                                    *passive,
                                    ab.cell(i as int, j as int),
                                    new_item,
                                    matching@[t2] as int,
                                    j as int,
                                );
                            } else {
                                assert(cell[cell.len() - 1].rule_idx == matching@[t2]);
                            }
                        }
                    }
                } else {
                    proof {
                        assert(!goal);
                    }
                }
                t += 1;
            }
            proof {
                assert forall|r: int|
                    #[trigger] seed_goal(g, inp, *passive, r, i as int, j as int) && rule_rhs(g, r)[0] is T
                        implies seeded(g, inp, *passive, active.cell(i as int, j as int), r, j as int) by {
                    lemma_has_nt_count(g, r);
                    assert(g.rules@[r].rhs@[0]@ == rule_rhs(g, r)[0]);
                    assert(crate::grammar::selects(
                        g.rules@[r],
                        crate::grammar::RuleKind::StartT,
                        Some(inp[i as int]),
                    ));
                    assert(crate::grammar::lists_exactly(
                        g.start_t_by_word.lookup(inp[i as int]),
                        g.rules@,
                        crate::grammar::RuleKind::StartT,
                        Some(inp[i as int]),
                    ));
                    assert(g.rules.len() == g.rules@.len());
                    assert(matching@.contains(r as usize));
                    let t2 = choose|t2: int| 0 <= t2 < matching@.len() && matching@[t2] == r as usize;
                    assert(seed_goal(g, inp, *passive, matching@[t2] as int, i as int, j as int));
                }
            }
        },
        None => {
            proof {
                assert forall|r: int|
                    #[trigger] seed_goal(g, inp, *passive, r, i as int, j as int) && rule_rhs(g, r)[0] is T
                        implies seeded(g, inp, *passive, active.cell(i as int, j as int), r, j as int) by {
                    lemma_has_nt_count(g, r);
                    assert(g.rules@[r].rhs@[0]@ == rule_rhs(g, r)[0]);
                    assert(crate::grammar::selects(
                        g.rules@[r],
                        crate::grammar::RuleKind::StartT,
                        Some(inp[i as int]),
                    ));
                    assert(g.start_t_by_word.lookup(inp[i as int]).contains(r as usize));
                }
            }
        },
    }
    let ghost a1 = *active;
    let idx = &grammar.start_nt_by_symbol;
    let mut t: usize = 0;
    while t < idx.keys.len()
        invariant
            t <= idx.keys@.len(),
            idx == g.start_nt_by_symbol,
            g == *grammar,
            inp == crate::text::string_views(input@),
            g.wf(),
            n <= input@.len(),
            i < j <= n,
            n <= a0.size(),
            passive.inv(),
            active.inv(),
            active.size() == a0.size(),
            forall|a: int, b: int|
                0 <= a <= a0.size() && 0 <= b <= a0.size() && !(a == i && b == j)
                    ==> #[trigger] active.cell(a, b) == a0.cell(a, b),
            actives_ok(g, inp, *active, *passive, n as int, sound),
                    rules_safe(g, inp, es, gs, n as int),
                    actives_safe(g, inp, es, gs, *active, n as int),
            forall|r: int|
                #[trigger] seed_goal(g, inp, *passive, r, i as int, j as int) && rule_rhs(g, r)[0] is T
                    ==> seeded(g, inp, *passive, active.cell(i as int, j as int), r, j as int),
            forall|t2: int, u2: int|
                0 <= t2 < t && 0 <= u2 < idx.lists@[t2]@.len() && #[trigger] seed_goal(
                    g,
                    inp,
                    *passive,
                    idx.lists@[t2]@[u2] as int,
                    i as int,
                    j as int,
                ) ==> seeded(
                    g,
                    inp,
                    *passive,
                    active.cell(i as int, j as int),
                    idx.lists@[t2]@[u2] as int,
                    j as int,
                ),
        decreases idx.keys.len() - t,
    {
        let ghost at = *active;
        proof {
            idx.lemma_lookup_at(t as int);
            assert(crate::grammar::lists_exactly(
                g.start_nt_by_symbol.lookup(idx.keys@[t as int]@),
                g.rules@,
                crate::grammar::RuleKind::StartNt,
                Some(idx.keys@[t as int]@),
            ));
        }
        if passive.has_any_at(idx.keys[t].as_str(), i) {
            let lst = &idx.lists[t];
            let mut u: usize = 0;
            while u < lst.len()
                invariant
                    u <= lst@.len(),
                    t < idx.keys@.len(),
                    lst@ == g.start_nt_by_symbol.lookup(idx.keys@[t as int]@),
                    lst@ == idx.lists@[t as int]@,
                    crate::grammar::lists_exactly(
                        lst@,
                        g.rules@,
                        crate::grammar::RuleKind::StartNt,
                        Some(idx.keys@[t as int]@),
                    ),
                    idx == g.start_nt_by_symbol,
                    g == *grammar,
                    inp == crate::text::string_views(input@),
                    g.wf(),
                    n <= input@.len(),
                    i < j <= n,
                    n <= a0.size(),
                    passive.inv(),
                    active.inv(),
                    active.size() == a0.size(),
                    forall|a: int, b: int|
                        0 <= a <= a0.size() && 0 <= b <= a0.size() && !(a == i && b == j)
                            ==> #[trigger] active.cell(a, b) == a0.cell(a, b),
                    actives_ok(g, inp, *active, *passive, n as int, sound),
                    rules_safe(g, inp, es, gs, n as int),
                    actives_safe(g, inp, es, gs, *active, n as int),
                    forall|r: int|
                        #[trigger] seed_goal(g, inp, *passive, r, i as int, j as int) && rule_rhs(g, r)[0] is T
                            ==> seeded(g, inp, *passive, active.cell(i as int, j as int), r, j as int),
                    forall|t2: int, u2: int|
                        0 <= t2 < t && 0 <= u2 < idx.lists@[t2]@.len() && #[trigger] seed_goal(
                            g,
                            inp,
                            *passive,
                            idx.lists@[t2]@[u2] as int,
                            i as int,
                            j as int,
                        ) ==> seeded(
                            g,
                            inp,
                            *passive,
                            active.cell(i as int, j as int),
                            idx.lists@[t2]@[u2] as int,
                            j as int,
                        ),
                    forall|u2: int|
                        0 <= u2 < u && #[trigger] seed_goal(g, inp, *passive, lst@[u2] as int, i as int, j as int)
                            ==> seeded(
                            g,
                            inp,
                            *passive,
                            active.cell(i as int, j as int),
                            lst@[u2] as int,
                            j as int,
                        ),
                decreases lst.len() - u,
            {
                let ri = lst[u];
                proof {
                    assert(lst@[u as int] == ri);
                }
                let rule = &grammar.rules[ri];
                let ghost goal = seed_goal(g, inp, *passive, ri as int, i as int, j as int);
                let ghost ab = *active;
                proof {
                    if goal {
                        lemma_matches_len(rule_rhs(g, ri as int), inp, *passive, 0, i as int, j as int);
                    }
                }
                if rule.rhs.len() <= j - i {
                    let new_item = Item::from_rule(ri, &rule.rhs, i, i, 0);
                    proof {
                        assert(new_item.tail_spans@.len() == rule_rhs(g, ri as int).len());
                        assert(active_ok(g, inp, *passive, new_item, i as int, j as int, sound));
                        assert(g.rules@[ri as int].rhs@[0]@ == rule_rhs(g, ri as int)[0]);
                    }
                    proof {
                        assert(rule_rhs(g, ri as int)[0] is NT);
                        if matches_in(rule_rhs(g, ri as int), inp, es, 0, i as int, j as int) {
                            assert(has_nonterminal(g, ri as int));
                        }
                        assert(item_safe(g, inp, es, gs, new_item, i as int, j as int));
                    }
                    active.at_mut(i, j).push(new_item);
                    proof {
                        lemma_push_active(
                            g,
                            inp,
                            ab,
                            *active,
                            *passive,
                            new_item,
                            i as int,
                            j as int,
                            n as int,
                            sound,
                        );
                        lemma_push_safe(g, inp, es, gs, ab, *active, new_item, i as int, j as int, n as int);
                        let cell = active.cell(i as int, j as int);
                        let old_cell = ab.cell(i as int, j as int);
                        assert(cell == old_cell.push(new_item));
                        assert(cell[cell.len() - 1] == new_item);
                        assert forall|r: int|
                            #[trigger] seed_goal(g, inp, *passive, r, i as int, j as int) && rule_rhs(
                                g,
                                r,
                            )[0] is T implies seeded(g, inp, *passive, cell, r, j as int) by {
                            lemma_seeded_push(g, inp, *passive, old_cell, new_item, r, j as int);
                        }
                        assert forall|t2: int, u2: int|
                            0 <= t2 < t && 0 <= u2 < idx.lists@[t2]@.len() && #[trigger] seed_goal(
                                g,
                                inp,
                                *passive,
                                idx.lists@[t2]@[u2] as int,
                                i as int,
                                j as int,
                            ) implies seeded(
                                g,
                                inp,
                                *passive,
                                cell,
                                idx.lists@[t2]@[u2] as int,
                                j as int,
                            ) by {
                            lemma_seeded_push(
                                g,
                                inp,
                                *passive,
                                old_cell,
                                new_item,
                                idx.lists@[t2]@[u2] as int,
                                j as int,
                            );
                        }
                        assert forall|u2: int|
                            0 <= u2 <= u && #[trigger] seed_goal(
                                g,
                                inp,
                                *passive,
                                lst@[u2] as int,
                                i as int,
                                j as int,
                            ) implies seeded(g, inp, *passive, cell, lst@[u2] as int, j as int) by {
                            if u2 < u {
                                lemma_seeded_push(
                                    g,
                                    inp,
                                    *passive,
                                    old_cell,
                                    new_item,
                                    lst@[u2] as int,
                                    j as int,
                                );
                            } else {
                                assert(cell[cell.len() - 1].rule_idx == lst@[u2]);
                                assert(pending(g, inp, *passive, cell[cell.len() - 1], j as int));
                            }
                        }
                    }
                } else {
                    proof {
                        assert(!goal);
                    }
                }
                u += 1;
            }
        } else {
            proof {
                let lst = idx.lists@[t as int]@;
                let key = idx.keys@[t as int]@;
                assert forall|u2: int|
                    0 <= u2 < lst.len() implies !#[trigger] seed_goal(
                    g,
                    inp,
                    *passive,
                    lst[u2] as int,
                    i as int,
                    j as int,
                ) by {
                    let r = lst[u2] as int;
                    assert(crate::grammar::selects(g.rules@[r], crate::grammar::RuleKind::StartNt, Some(key)));
                    assert(g.rules@[r].rhs@[0]@ == rule_rhs(g, r)[0]);
                    if seed_goal(g, inp, *passive, r, i as int, j as int) {
                        let rv = rule_rhs(g, r);
                        let q = choose|q: int|
                            i < q <= j && #[trigger] chart_has(*passive, key, i as int, q) && matches_to(
                                rv,
                                inp,
                                *passive,
                                1,
                                q,
                                j as int,
                            );
                        assert(passive.rights(key, i as u16).contains(q as u16));
                    }
                }
            }
        }
        t += 1;
    }
    proof {
        assert forall|r: int|
            #[trigger] seed_goal(g, inp, *passive, r, i as int, j as int) implies seeded(
            g,
            inp,
            *passive,
            active.cell(i as int, j as int),
            r,
            j as int,
        ) by {
            let rv = rule_rhs(g, r);
            if rv[0] is NT {
                let key = rv[0]->NT_0;
                assert(g.rules@[r].rhs@[0]@ == rv[0]);
                assert(crate::grammar::selects(g.rules@[r], crate::grammar::RuleKind::StartNt, Some(key)));
                assert(crate::grammar::lists_exactly(
                    g.start_nt_by_symbol.lookup(key),
                    g.rules@,
                    crate::grammar::RuleKind::StartNt,
                    Some(key),
                ));
                assert(g.rules.len() == g.rules@.len());
                assert(idx.lookup(key).contains(r as usize));
                assert(idx.has_key(key));
                let t2 = choose|t2: int| 0 <= t2 < idx.keys@.len() && idx.keys@[t2]@ == key;
                idx.lemma_lookup_at(t2);
                let u2 = choose|u2: int| 0 <= u2 < idx.lists@[t2]@.len() && idx.lists@[t2]@[u2] == r as usize;
                assert(seed_goal(g, inp, *passive, idx.lists@[t2]@[u2] as int, i as int, j as int));
            }
        }
    }
}

} // verus!
verus! {

proof fn lemma_added_grows(g: Grammar, c0: Chart, c1: Chart, item: Item, i: int, j: int, sym: Seq<char>)
    requires
        chart_added(c0, c1, item, i, j, sym),
        item_complete(g, item, i, j),
    ensures
        cell_grows(c0.cell(i, j), c1.cell(i, j), g, i, j),
{
    let o = c0.cell(i, j);
    assert(c1.cell(i, j).take(o.len() as int) =~= o);
    assert(c1.cell(i, j)[o.len() as int] == item);
}

/// The chart state that the self-filling step keeps: the passive chart
/// only grows, only in cell `(i, j)` and only by complete items.
pub open spec fn fill_ok(
    g: Grammar,
    input: Seq<Seq<char>>,
    c0: Chart,
    c: Chart,
    i: int,
    j: int,
    sound: bool,
) -> bool {
    &&& c.inv()
    &&& c.size() == c0.size()
    &&& index_grows(c0, c)
    &&& symbols_are_categories(g, c)
    &&& sound ==> c0.size() < 65536 && chart_sound(g, input, c)
    &&& forall|a: int, b: int|
        0 <= a <= c0.size() && 0 <= b <= c0.size() && !(a == i && b == j) ==> #[trigger] c.cell(a, b)
            == c0.cell(a, b)
    &&& cell_grows(c0.cell(i, j), c.cell(i, j), g, i, j)
}

/// Recording a complete item keeps `fill_ok`.
proof fn lemma_fill_step(
    g: Grammar,
    input: Seq<Seq<char>>,
    c0: Chart,
    cb: Chart,
    cn: Chart,
    item: Item,
    i: int,
    j: int,
    sym: Seq<char>,
    sound: bool,
)
    requires
        fill_ok(g, input, c0, cb, i, j, sound),
        chart_added(cb, cn, item, i, j, sym),
        item_complete(g, item, i, j),
        index_grows(cb, cn),
        symbols_are_categories(g, cn),
        sound ==> chart_sound(g, input, cn),
    ensures
        fill_ok(g, input, c0, cn, i, j, sound),
{
    lemma_index_trans(c0, cb, cn);
    lemma_added_grows(g, cb, cn, item, i, j, sym);
    lemma_cell_trans(c0.cell(i, j), cb.cell(i, j), cn.cell(i, j), g, i, j);
}

/// A one-symbol item over `(i, j)` whose symbol is a category recorded
/// over `(i, j)` is matched.
proof fn lemma_unit_sound(
    g: Grammar,
    input: Seq<Seq<char>>,
    chart: Chart,
    item: Item,
    i: int,
    j: int,
    s: Seq<char>,
)
    requires
        item_complete(g, item, i, j),
        rule_rhs(g, item.rule_idx as int).len() == 1,
        rule_rhs(g, item.rule_idx as int)[0] is NT,
        rule_rhs(g, item.rule_idx as int)[0]->NT_0 == s,
        item.tail_spans@[0] == Some(Span { left: i as i32, right: j as i32 }),
        0 <= i < j < 65536,
        chart_has(chart, s, i, j),
    ensures
        item_sound(g, input, chart, item, i, j),
{
    let rv = rule_rhs(g, item.rule_idx as int);
    assert(reach(rv, item.tail_spans@, input, chart, i, 0) == Some(i));
}

/// Growing the chart and extending the list keep the list's first `upto`
/// symbols closed under the rules that consist of one of them alone.
proof fn lemma_units_grow(
    g: Grammar,
    c1: Chart,
    c2: Chart,
    s1: Seq<Seq<char>>,
    s2: Seq<Seq<char>>,
    upto: int,
    i: int,
    j: int,
)
    requires
        units_closed(g, c1, s1, upto, i, j),
        index_grows(c1, c2),
        c1.cell(i, j).len() <= c2.cell(i, j).len(),
        c2.cell(i, j).take(c1.cell(i, j).len() as int) == c1.cell(i, j),
        upto <= s1.len() <= s2.len(),
        s2.take(s1.len() as int) == s1,
    ensures
        units_closed(g, c2, s2, upto, i, j),
{
    assert forall|k: int, r: int|
        0 <= k < upto && 0 <= r < g.rules@.len() && #[trigger] unary_over(g, r, s2[k]) implies chart_has(
        c2,
        category(g, r),
        i,
        j,
    ) && has_item(c2.cell(i, j), r, unit_spans(i, j)) by {
        assert(s2[k] == s2.take(s1.len() as int)[k]);
        assert(unary_over(g, r, s1[k]));
        assert(c1.rights(category(g, r), i as u16).contains(j as u16));
        lemma_has_item_grows(c1.cell(i, j), c2.cell(i, j), r, unit_spans(i, j));
    }
}

/// What recording one complete item keeps of the self-filling step.
proof fn lemma_fill_record(
    g: Grammar,
    c0: Chart,
    cb: Chart,
    cn: Chart,
    sv0: Seq<Seq<char>>,
    svb: Seq<Seq<char>>,
    svn: Seq<Seq<char>>,
    si: int,
    i: int,
    j: int,
)
    requires
        adds_only_at(c0, cb, i, j),
        adds_only_at(cb, cn, i, j),
        fresh_listed(c0, cb, svb, i, j),
        fresh_listed(cb, cn, svn, i, j),
        index_grows(cb, cn),
        svb.take(sv0.len() as int) == sv0,
        sv0.len() <= svb.len() <= svn.len(),
        svn.take(svb.len() as int) == svb,
        units_closed(g, cb, svb, si, i, j),
        si <= svb.len(),
        cb.cell(i, j).len() <= cn.cell(i, j).len(),
        cn.cell(i, j).take(cb.cell(i, j).len() as int) == cb.cell(i, j),
    ensures
        adds_only_at(c0, cn, i, j),
        fresh_listed(c0, cn, svn, i, j),
        svn.take(sv0.len() as int) == sv0,
        units_closed(g, cn, svn, si, i, j),
{
    lemma_adds_trans(c0, cb, cn, i, j);
    lemma_fresh_trans(c0, cb, cn, svb, svn, i, j);
    assert(svn.take(sv0.len() as int) =~= svn.take(svb.len() as int).take(sv0.len() as int));
    lemma_units_grow(g, cb, cn, svb, svn, si, i, j);
}

/// A rule that consists of a category recorded over `(i, j)` alone may be
/// completed there.
proof fn lemma_unit_ok(
    g: Grammar,
    input: Seq<Seq<char>>,
    es: Set<(Seq<char>, u16, u16)>,
    gs: Seq<Seq<char>>,
    c: Chart,
    r: int,
    s: Seq<char>,
    i: int,
    j: int,
    n: int,
)
    requires
        chart_in(c, es),
        rules_safe(g, input, es, gs, n),
        0 <= i < j <= n,
        0 <= r < g.rules@.len(),
        rule_rhs(g, r).len() == 1,
        rule_rhs(g, r)[0] is NT,
        rule_rhs(g, r)[0]->NT_0 == s,
        chart_has(c, s, i, j),
    ensures
        completes_ok(g, es, gs, r, i, j),
{
    let rv = rule_rhs(g, r);
    assert(c.rights(s, i as u16).contains(j as u16));
    assert(es.contains((s, i as u16, j as u16)));
    assert(matches_in(rv, input, es, 1, j, j));
    assert(matches_in(rv, input, es, 0, i, j));
    assert(has_nonterminal(g, r));
}

/// The self-filling step over cell `(i, j)`: for each category found over
/// `(i, j)`, in order and including those found meanwhile, every rule that
/// consists of that category alone, and every unmatched remaining item
/// whose rule consists of that category alone, becomes a complete item of
/// `(i, j)` in the passive chart. In the end every rule that consists of
/// a category found over `(i, j)` alone has its category recorded there.
fn self_fill(
    input: &[String],
    n: usize,
    i: usize,
    j: usize,
    grammar: &Grammar,
    passive: &mut Chart,
    new_symbols: &mut Vec<String>,
    remaining: &Vec<Item>,
    Ghost(sound): Ghost<bool>,
    Ghost(es): Ghost<Set<(Seq<char>, u16, u16)>>,
    Ghost(gs): Ghost<Seq<Seq<char>>>,
)
    requires
        n <= input@.len(),
        i < j <= n,
        n <= old(passive).size(),
        grammar.wf(),
        gs.len() <= 65535,
        forall|s: Seq<char>| #[trigger] old(passive).known(s) ==> gs.contains(s),
        chart_in(*old(passive), es),
        rules_safe(*grammar, crate::text::string_views(input@), es, gs, n as int),
        old(passive).inv(),
        symbols_are_categories(*grammar, *old(passive)),
        sound ==> old(passive).size() < 65536 && chart_sound(
            *grammar,
            crate::text::string_views(input@),
            *old(passive),
        ),
        symbols_found(
            *grammar,
            *old(passive),
            crate::text::string_views(old(new_symbols)@),
            i as int,
            j as int,
            sound,
        ),
        forall|q: int|
            0 <= q < remaining@.len() ==> active_ok(
                *grammar,
                crate::text::string_views(input@),
                *old(passive),
                #[trigger] remaining@[q],
                i as int,
                j as int,
                false,
            ),
    ensures
        forall|s: Seq<char>| #[trigger] final(passive).known(s) ==> gs.contains(s),
        chart_in(*final(passive), es),
        fill_ok(
            *grammar,
            crate::text::string_views(input@),
            *old(passive),
            *final(passive),
            i as int,
            j as int,
            sound,
        ),
        adds_only_at(*old(passive), *final(passive), i as int, j as int),
        fresh_listed(
            *old(passive),
            *final(passive),
            crate::text::string_views(final(new_symbols)@),
            i as int,
            j as int,
        ),
        old(new_symbols)@.len() <= final(new_symbols)@.len(),
        crate::text::string_views(final(new_symbols)@).take(old(new_symbols)@.len() as int)
            == crate::text::string_views(old(new_symbols)@),
        units_closed(
            *grammar,
            *final(passive),
            crate::text::string_views(final(new_symbols)@),
            final(new_symbols)@.len() as int,
            i as int,
            j as int,
        ),
{
    let ghost g = *grammar;
    let ghost inp = crate::text::string_views(input@);
    let ghost c0 = *passive;
    let ghost sv0 = crate::text::string_views(new_symbols@);
    proof {
        assert(c0.cell(i as int, j as int).take(c0.cell(i as int, j as int).len() as int) =~= c0.cell(
            i as int,
            j as int,
        ));
        assert(sv0.take(sv0.len() as int) =~= sv0);
    }
    let mut si: usize = 0;
    while si < new_symbols.len()
        invariant
            g == *grammar,
            inp == crate::text::string_views(input@),
            n <= input@.len(),
            i < j <= n,
            n <= c0.size(),
            g.wf(),
            gs.len() <= 65535,
            forall|s: Seq<char>| #[trigger] passive.known(s) ==> gs.contains(s),
            chart_in(*passive, es),
            rules_safe(g, inp, es, gs, n as int),
            si <= new_symbols@.len(),
            fill_ok(g, inp, c0, *passive, i as int, j as int, sound),
            adds_only_at(c0, *passive, i as int, j as int),
            fresh_listed(c0, *passive, crate::text::string_views(new_symbols@), i as int, j as int),
            sv0.len() <= new_symbols@.len(),
            crate::text::string_views(new_symbols@).take(sv0.len() as int) == sv0,
            units_closed(g, *passive, crate::text::string_views(new_symbols@), si as int, i as int, j as int),
            symbols_found(
                g,
                *passive,
                crate::text::string_views(new_symbols@),
                i as int,
                j as int,
                sound,
            ),
            forall|q: int|
                0 <= q < remaining@.len() ==> active_ok(
                    g,
                    inp,
                    c0,
                    #[trigger] remaining@[q],
                    i as int,
                    j as int,
                    false,
                ),
        decreases g.rules@.len() - si,
    {
        proof {
            lemma_found_bound(g, crate::text::string_views(new_symbols@));
        }
        let s = String::from_str(new_symbols[si].as_str());
        proof {
            assert(s@ == crate::text::string_views(new_symbols@)[si as int]);
        }
        let sp = Span {
            left: #[verifier::truncate] (i as i32),
            right: #[verifier::truncate] (j as i32),
        };
        match grammar.start_nt_by_symbol.get(s.as_str()) {
            Some(rule_indices) => {
                let mut t: usize = 0;
                while t < rule_indices.len()
                    invariant
                        t <= rule_indices@.len(),
                        rule_indices@ == g.start_nt_by_symbol.lookup(s@),
                        crate::grammar::lists_exactly(
                            rule_indices@,
                            g.rules@,
                            crate::grammar::RuleKind::StartNt,
                            Some(s@),
                        ),
                        si < new_symbols@.len(),
                        crate::text::string_views(new_symbols@)[si as int] == s@,
                        sp == (Span {
                            left: #[verifier::truncate] (i as i32),
                            right: #[verifier::truncate] (j as i32),
                        }),
                        g == *grammar,
                        inp == crate::text::string_views(input@),
                        n <= input@.len(),
                        i < j <= n,
                        n <= c0.size(),
                        g.wf(),
                        gs.len() <= 65535,
                        forall|s: Seq<char>| #[trigger] passive.known(s) ==> gs.contains(s),
                        chart_in(*passive, es),
                        rules_safe(g, inp, es, gs, n as int),
                        fill_ok(g, inp, c0, *passive, i as int, j as int, sound),
                        adds_only_at(c0, *passive, i as int, j as int),
                        fresh_listed(
                            c0,
                            *passive,
                            crate::text::string_views(new_symbols@),
                            i as int,
                            j as int,
                        ),
                        sv0.len() <= new_symbols@.len(),
                        crate::text::string_views(new_symbols@).take(sv0.len() as int) == sv0,
                        units_closed(
                            g,
                            *passive,
                            crate::text::string_views(new_symbols@),
                            si as int,
                            i as int,
                            j as int,
                        ),
                        forall|t2: int|
                            0 <= t2 < t && #[trigger] unary_over(g, rule_indices@[t2] as int, s@)
                                ==> chart_has(*passive, category(g, rule_indices@[t2] as int), i as int, j as int)
                                && has_item(
                                passive.cell(i as int, j as int),
                                rule_indices@[t2] as int,
                                unit_spans(i as int, j as int),
                            ),
                        symbols_found(
                            g,
                            *passive,
                            crate::text::string_views(new_symbols@),
                            i as int,
                            j as int,
                            sound,
                        ),
                    decreases rule_indices.len() - t,
                {
                    let ri = rule_indices[t];
                    proof {
                        assert(rule_indices@[t as int] == ri);
                    }
                    let rule = &grammar.rules[ri];
                    let ghost cb = *passive;
                    let ghost svb = crate::text::string_views(new_symbols@);
                    if rule.rhs.len() <= j - i {
                        let mut new_item = Item::from_rule(ri, &rule.rhs, i, i, 0);
                        new_item.dot = 1;
                        new_item.right = j;
                        new_item.tail_spans.set(0, Some(sp));
                        if new_item.dot == rule.rhs.len() {
                            let ghost ni = new_item;
                            proof {
                                assert(item_complete(g, new_item, i as int, j as int));
                                assert(chart_has(cb, svb[si as int], i as int, j as int));
                                if sound {
                                    lemma_unit_sound(g, inp, cb, new_item, i as int, j as int, s@);
                                }
                                lemma_unit_ok(g, inp, es, gs, cb, ri as int, s@, i as int, j as int, n as int);
                            }
                            record(
                                new_item,
                                i,
                                j,
                                rule.lhs.nt_symbol(),
                                grammar,
                                passive,
                                new_symbols,
                                Ghost(inp),
                                Ghost(sound),
                                Ghost(gs),
                            );
                            proof {
                                let cn = *passive;
                                let svn = crate::text::string_views(new_symbols@);
                                assert(svn[si as int] == svn.take(svb.len() as int)[si as int]);
                                lemma_fill_step(
                                    g,
                                    inp,
                                    c0,
                                    cb,
                                    cn,
                                    ni,
                                    i as int,
                                    j as int,
                                    category(g, ri as int),
                                    sound,
                                );
                                lemma_added_grows(g, cb, cn, ni, i as int, j as int, category(g, ri as int));
                                lemma_fill_record(g, c0, cb, cn, sv0, svb, svn, si as int, i as int, j as int);
                                lemma_chart_in_added(cb, cn, ni, i as int, j as int, category(g, ri as int), es);
                                assert(ni.tail_spans@ =~= unit_spans(i as int, j as int));
                                assert(cn.cell(i as int, j as int)[cb.cell(i as int, j as int).len() as int] == ni);
                                assert(has_item(cn.cell(i as int, j as int), ri as int, unit_spans(i as int, j as int)));
                                assert forall|t2: int|
                                    0 <= t2 <= t && #[trigger] unary_over(g, rule_indices@[t2] as int, s@)
                                        implies chart_has(cn, category(g, rule_indices@[t2] as int), i as int, j as int)
                                        && has_item(
                                        cn.cell(i as int, j as int),
                                        rule_indices@[t2] as int,
                                        unit_spans(i as int, j as int),
                                    ) by {
                                    if t2 < t {
                                        lemma_has_item_grows(
                                            cb.cell(i as int, j as int),
                                            cn.cell(i as int, j as int),
                                            rule_indices@[t2] as int,
                                            unit_spans(i as int, j as int),
                                        );
                                        assert(cb.rights(category(g, rule_indices@[t2] as int), i as u16).contains(
                                            j as u16,
                                        ));
                                    }
                                }
                            }
                        } else {
                            proof {
                                assert(!unary_over(g, ri as int, s@));
                            }
                        }
                    } else {
                        proof {
                            assert(!unary_over(g, ri as int, s@));
                        }
                    }
                    t += 1;
                }
                proof {
                    assert(g.rules.len() == g.rules@.len());
                    assert forall|r: int|
                        0 <= r < g.rules@.len() && #[trigger] unary_over(g, r, s@) implies chart_has(
                        *passive,
                        category(g, r),
                        i as int,
                        j as int,
                    ) by {
                        assert(g.rules@[r].rhs@[0]@ == rule_rhs(g, r)[0]);
                        assert(crate::grammar::selects(
                            g.rules@[r],
                            crate::grammar::RuleKind::StartNt,
                            Some(s@),
                        ));
                        assert(rule_indices@.contains(r as usize));
                        let t2 = choose|t2: int| 0 <= t2 < rule_indices@.len() && rule_indices@[t2] == r as usize;
                        assert(unary_over(g, rule_indices@[t2] as int, s@));
                    }
                    assert forall|r: int|
                        0 <= r < g.rules@.len() && #[trigger] unary_over(g, r, s@) implies has_item(
                        passive.cell(i as int, j as int),
                        r,
                        unit_spans(i as int, j as int),
                    ) by {
                        assert(g.rules@[r].rhs@[0]@ == rule_rhs(g, r)[0]);
                        assert(crate::grammar::selects(
                            g.rules@[r],
                            crate::grammar::RuleKind::StartNt,
                            Some(s@),
                        ));
                        assert(rule_indices@.contains(r as usize));
                        let t2 = choose|t2: int| 0 <= t2 < rule_indices@.len() && rule_indices@[t2] == r as usize;
                        assert(unary_over(g, rule_indices@[t2] as int, s@));
                    }
                }
            },
            None => {
                proof {
                    assert(g.rules.len() == g.rules@.len());
                    assert forall|r: int|
                        0 <= r < g.rules@.len() && #[trigger] unary_over(g, r, s@) implies chart_has(
                        *passive,
                        category(g, r),
                        i as int,
                        j as int,
                    ) by {
                        assert(g.rules@[r].rhs@[0]@ == rule_rhs(g, r)[0]);
                        assert(crate::grammar::selects(
                            g.rules@[r],
                            crate::grammar::RuleKind::StartNt,
                            Some(s@),
                        ));
                        assert(crate::grammar::lists_exactly(
                            g.start_nt_by_symbol.lookup(s@),
                            g.rules@,
                            crate::grammar::RuleKind::StartNt,
                            Some(s@),
                        ));
                        assert(g.start_nt_by_symbol.lookup(s@).contains(r as usize));
                    }
                    assert forall|r: int|
                        0 <= r < g.rules@.len() && #[trigger] unary_over(g, r, s@) implies has_item(
                        passive.cell(i as int, j as int),
                        r,
                        unit_spans(i as int, j as int),
                    ) by {
                        assert(g.rules@[r].rhs@[0]@ == rule_rhs(g, r)[0]);
                        assert(crate::grammar::selects(
                            g.rules@[r],
                            crate::grammar::RuleKind::StartNt,
                            Some(s@),
                        ));
                        assert(crate::grammar::lists_exactly(
                            g.start_nt_by_symbol.lookup(s@),
                            g.rules@,
                            crate::grammar::RuleKind::StartNt,
                            Some(s@),
                        ));
                        assert(g.start_nt_by_symbol.lookup(s@).contains(r as usize));
                    }
                }
            },
        }
        let mut q: usize = 0;
        while q < remaining.len()
            invariant
                q <= remaining@.len(),
                si < new_symbols@.len(),
                crate::text::string_views(new_symbols@)[si as int] == s@,
                sp == (Span {
                    left: #[verifier::truncate] (i as i32),
                    right: #[verifier::truncate] (j as i32),
                }),
                g == *grammar,
                inp == crate::text::string_views(input@),
                n <= input@.len(),
                i < j <= n,
                n <= c0.size(),
                g.wf(),
                gs.len() <= 65535,
                forall|s: Seq<char>| #[trigger] passive.known(s) ==> gs.contains(s),
                chart_in(*passive, es),
                rules_safe(g, inp, es, gs, n as int),
                fill_ok(g, inp, c0, *passive, i as int, j as int, sound),
                adds_only_at(c0, *passive, i as int, j as int),
                fresh_listed(c0, *passive, crate::text::string_views(new_symbols@), i as int, j as int),
                sv0.len() <= new_symbols@.len(),
                crate::text::string_views(new_symbols@).take(sv0.len() as int) == sv0,
                units_closed(
                    g,
                    *passive,
                    crate::text::string_views(new_symbols@),
                    si as int,
                    i as int,
                    j as int,
                ),
                forall|r: int|
                    0 <= r < g.rules@.len() && #[trigger] unary_over(g, r, s@) ==> chart_has(
                        *passive,
                        category(g, r),
                        i as int,
                        j as int,
                    ) && has_item(passive.cell(i as int, j as int), r, unit_spans(i as int, j as int)),
                symbols_found(
                    g,
                    *passive,
                    crate::text::string_views(new_symbols@),
                    i as int,
                    j as int,
                    sound,
                ),
                forall|z: int|
                    0 <= z < remaining@.len() ==> active_ok(
                        g,
                        inp,
                        c0,
                        #[trigger] remaining@[z],
                        i as int,
                        j as int,
                        false,
                    ),
            decreases remaining.len() - q,
        {
            let item = &remaining[q];
            proof {
                assert(active_ok(g, inp, c0, remaining@[q as int], i as int, j as int, false));
            }
            if item.dot == 0 {
                let item_rhs = &grammar.rules[item.rule_idx].rhs;
                proof {
                    assert(g.rules@[item.rule_idx as int].rhs@.len() > 0);
                }
                if item_rhs[0].is_nt() && str_eq(item_rhs[0].nt_symbol(), s.as_str()) {
                    let mut new_item = item.advance(i, j, 1);
                    new_item.tail_spans.set(0, Some(sp));
                    if item_rhs.len() == 1 {
                        let ghost cb = *passive;
                        let ghost svb = crate::text::string_views(new_symbols@);
                        let ghost ni = new_item;
                        proof {
                            assert(rule_rhs(g, item.rule_idx as int)[0] == item_rhs@[0]@);
                            assert(item_complete(g, new_item, i as int, j as int));
                            assert(chart_has(cb, svb[si as int], i as int, j as int));
                            if sound {
                                lemma_unit_sound(g, inp, cb, new_item, i as int, j as int, s@);
                            }
                            lemma_unit_ok(g, inp, es, gs, cb, item.rule_idx as int, s@, i as int, j as int, n as int);
                        }
                        record(
                            new_item,
                            i,
                            j,
                            grammar.rules[item.rule_idx].lhs.nt_symbol(),
                            grammar,
                            passive,
                            new_symbols,
                            Ghost(inp),
                            Ghost(sound),
                            Ghost(gs),
                        );
                        proof {
                            let cn = *passive;
                            let svn = crate::text::string_views(new_symbols@);
                            assert(svn[si as int] == svn.take(svb.len() as int)[si as int]);
                            lemma_fill_step(
                                g,
                                inp,
                                c0,
                                cb,
                                cn,
                                ni,
                                i as int,
                                j as int,
                                category(g, item.rule_idx as int),
                                sound,
                            );
                            lemma_added_grows(g, cb, cn, ni, i as int, j as int, category(g, item.rule_idx as int));
                            lemma_fill_record(g, c0, cb, cn, sv0, svb, svn, si as int, i as int, j as int);
                            lemma_chart_in_added(cb, cn, ni, i as int, j as int, category(g, item.rule_idx as int), es);
                            assert forall|r: int|
                                0 <= r < g.rules@.len() && #[trigger] unary_over(g, r, s@) implies chart_has(
                                cn,
                                category(g, r),
                                i as int,
                                j as int,
                            ) && has_item(cn.cell(i as int, j as int), r, unit_spans(i as int, j as int)) by {
                                assert(cb.rights(category(g, r), i as u16).contains(j as u16));
                                lemma_has_item_grows(
                                    cb.cell(i as int, j as int),
                                    cn.cell(i as int, j as int),
                                    r,
                                    unit_spans(i as int, j as int),
                                );
                            }
                        }
                    }
                }
            }
            q += 1;
        }
        proof {
            let sv = crate::text::string_views(new_symbols@);
            assert forall|k: int, r: int|
                0 <= k < si + 1 && 0 <= r < g.rules@.len() && #[trigger] unary_over(g, r, sv[k])
                    implies chart_has(*passive, category(g, r), i as int, j as int) by {
                if k == si {
                    assert(unary_over(g, r, s@));
                }
            }
        }
        si += 1;
    }
}

} // verus!
verus! {

/// One step of the bottom-up parse, over the span `(i, j)`: seeds the
/// active cell, works each of its items through (the last one first), and
/// fills the cell with what the categories found there complete alone.
/// Afterwards every rule with a nonterminal that can be matched over
/// `(i, j)` has its category recorded there, and the passive chart records
/// nothing new but over `(i, j)`.
fn parse_span(
    input: &[String],
    n: usize,
    i: usize,
    j: usize,
    active: &mut Chart,
    passive: &mut Chart,
    grammar: &Grammar,
    Ghost(sound): Ghost<bool>,
    Ghost(es): Ghost<Set<(Seq<char>, u16, u16)>>,
    Ghost(gs): Ghost<Seq<Seq<char>>>,
)
    requires
        n <= input@.len(),
        i < j <= n,
        n <= old(active).size(),
        n <= old(passive).size(),
        grammar.wf(),
        gs.len() <= 65535,
        forall|s: Seq<char>| #[trigger] old(passive).known(s) ==> gs.contains(s),
        chart_in(*old(passive), es),
        rules_safe(*grammar, crate::text::string_views(input@), es, gs, n as int),
        actives_safe(*grammar, crate::text::string_views(input@), es, gs, *old(active), n as int),
        rhs_lengths_fit(*grammar, n as int),
        old(active).inv(),
        old(passive).inv(),
        symbols_are_categories(*grammar, *old(passive)),
        sound ==> old(passive).size() < 65536 && chart_sound(
            *grammar,
            crate::text::string_views(input@),
            *old(passive),
        ),
        actives_ok(
            *grammar,
            crate::text::string_views(input@),
            *old(active),
            *old(passive),
            n as int,
            sound,
        ),
    ensures
        forall|s: Seq<char>| #[trigger] final(passive).known(s) ==> gs.contains(s),
        chart_in(*final(passive), es),
        actives_safe(*grammar, crate::text::string_views(input@), es, gs, *final(active), n as int),
        final(active).inv(),
        final(active).size() == old(active).size(),
        final(active).cell(i as int, j as int).len() == 0,
        forall|a: int, b: int|
            0 <= a <= old(active).size() && 0 <= b <= old(active).size() && !(a == i && b == j)
                ==> #[trigger] final(active).cell(a, b) == old(active).cell(a, b),
        fill_ok(
            *grammar,
            crate::text::string_views(input@),
            *old(passive),
            *final(passive),
            i as int,
            j as int,
            sound,
        ),
        actives_ok(
            *grammar,
            crate::text::string_views(input@),
            *final(active),
            *final(passive),
            n as int,
            sound,
        ),
        adds_only_at(*old(passive), *final(passive), i as int, j as int),
        j < 65536 ==> complete_span(
            *grammar,
            crate::text::string_views(input@),
            *final(passive),
            i as int,
            j as int,
        ),
        j < 65536 ==> items_complete(
            *grammar,
            crate::text::string_views(input@),
            *final(passive),
            i as int,
            j as int,
        ),
{
    let ghost g = *grammar;
    let ghost inp = crate::text::string_views(input@);
    let ghost a0 = *active;
    let ghost p0 = *passive;
    seed(input, n, i, j, active, passive, grammar, Ghost(sound), Ghost(es), Ghost(gs));
    let ghost a1 = *active;
    proof {
        assert forall|r: int, ss: Seq<Option<Span>>|
            0 <= r < g.rules@.len() && has_nonterminal(g, r) && ss.len() == rule_rhs(g, r).len()
                && #[trigger] matches_spans(rule_rhs(g, r), inp, p0, ss, 0, i as int, j as int)
                implies seeded(g, inp, p0, active.cell(i as int, j as int), r, j as int) by {
            lemma_spans_matches(rule_rhs(g, r), inp, p0, ss, 0, i as int, j as int);
            assert(seed_goal(g, inp, p0, r, i as int, j as int));
        }
    }
    let mut new_symbols: Vec<String> = Vec::new();
    let mut remaining: Vec<Item> = Vec::new();
    proof {
        assert(crate::text::string_views(new_symbols@) =~= Seq::<Seq<char>>::empty());
        assert(p0.cell(i as int, j as int).take(p0.cell(i as int, j as int).len() as int) =~= p0.cell(
            i as int,
            j as int,
        ));
    }
    while active.at(i, j).len() > 0
        invariant
            g == *grammar,
            inp == crate::text::string_views(input@),
            n <= input@.len(),
            i < j <= n,
            n <= a0.size(),
            n <= p0.size(),
            g.wf(),
            gs.len() <= 65535,
            forall|s: Seq<char>| #[trigger] passive.known(s) ==> gs.contains(s),
            chart_in(*passive, es),
            rules_safe(g, inp, es, gs, n as int),
            actives_safe(g, inp, es, gs, *active, n as int),
            rhs_lengths_fit(g, n as int),
            active.inv(),
            active.size() == a0.size(),
            forall|a: int, b: int|
                0 <= a <= a0.size() && 0 <= b <= a0.size() && !(a == i && b == j)
                    ==> #[trigger] active.cell(a, b) == a0.cell(a, b),
            actives_ok(g, inp, *active, *passive, n as int, sound),
            fill_ok(g, inp, p0, *passive, i as int, j as int, sound),
            adds_only_at(p0, *passive, i as int, j as int),
            fresh_listed(p0, *passive, crate::text::string_views(new_symbols@), i as int, j as int),
            symbols_found(
                g,
                *passive,
                crate::text::string_views(new_symbols@),
                i as int,
                j as int,
                sound,
            ),
            forall|q: int|
                0 <= q < remaining@.len() ==> active_ok(
                    g,
                    inp,
                    *passive,
                    #[trigger] remaining@[q],
                    i as int,
                    j as int,
                    sound,
                ),
            j < 65536 ==> forall|r: int|
                #[trigger] seed_goal(g, inp, p0, r, i as int, j as int) ==> chart_has(
                    *passive,
                    category(g, r),
                    i as int,
                    j as int,
                ) || seeded(g, inp, p0, active.cell(i as int, j as int), r, j as int),
            j < 65536 ==> forall|r: int, ss: Seq<Option<Span>>|
                0 <= r < g.rules@.len() && has_nonterminal(g, r) && ss.len() == rule_rhs(g, r).len()
                    && #[trigger] matches_spans(rule_rhs(g, r), inp, p0, ss, 0, i as int, j as int)
                    ==> has_item(passive.cell(i as int, j as int), r, ss) || seeded(
                    g,
                    inp,
                    p0,
                    active.cell(i as int, j as int),
                    r,
                    j as int,
                ),
        decreases active.cell(i as int, j as int).len(),
    {
        let ghost ab = *active;
        let ghost top = ab.cell(i as int, j as int).len() - 1;
        proof {
            assert(active_ok(
                g,
                inp,
                *passive,
                ab.cell(i as int, j as int)[top],
                i as int,
                j as int,
                sound,
            ));
        }
        let item = active.at_mut(i, j).pop().unwrap();
        let ghost it = item;
        proof {
            assert(item == ab.cell(i as int, j as int)[top]);
            assert forall|a: int, b: int, q: int|
                0 <= a < b <= n && 0 <= q < active.cell(a, b).len() implies active_ok(
                g,
                inp,
                *passive,
                #[trigger] active.cell(a, b)[q],
                a,
                b,
                sound,
            ) by {
                if a == i && b == j {
                    assert(active.cell(a, b)[q] == ab.cell(a, b)[q]);
                } else {
                    assert(active.cell(a, b) == ab.cell(a, b));
                }
            }
        }
        let ghost cc = *passive;
        let ghost svc = crate::text::string_views(new_symbols@);
        proof {
            let cell = ab.cell(i as int, j as int);
            assert(cell[top] == it);
            if next_nt(g, it) {
                assert(item_safe(g, inp, es, gs, cell[top], i as int, j as int));
            }
            assert forall|a: int, b: int, q: int|
                0 <= a < b <= n && 0 <= q < active.cell(a, b).len() && next_nt(g, #[trigger] active.cell(a, b)[q])
                    implies item_safe(g, inp, es, gs, active.cell(a, b)[q], a, b) by {
                if a == i && b == j {
                    assert(active.cell(a, b)[q] == ab.cell(a, b)[q]);
                } else {
                    assert(active.cell(a, b) == ab.cell(a, b));
                }
            }
        }
        process(
            item,
            input,
            n,
            i,
            j,
            grammar,
            passive,
            &mut new_symbols,
            &mut remaining,
            Ghost(sound),
            Ghost(es),
            Ghost(gs),
        );
        proof {
            let cd = *passive;
            let sv = crate::text::string_views(new_symbols@);
            lemma_actives_grow(g, inp, *active, cc, cd, n as int, sound);
            lemma_index_trans(p0, cc, cd);
            lemma_adds_trans(p0, cc, cd, i as int, j as int);
            lemma_fresh_trans(p0, cc, cd, svc, sv, i as int, j as int);
            lemma_cell_trans(
                p0.cell(i as int, j as int),
                cc.cell(i as int, j as int),
                cd.cell(i as int, j as int),
                g,
                i as int,
                j as int,
            );
            assert forall|r: int|
                j < 65536 && #[trigger] seed_goal(g, inp, p0, r, i as int, j as int) implies chart_has(
                cd,
                category(g, r),
                i as int,
                j as int,
            ) || seeded(g, inp, p0, active.cell(i as int, j as int), r, j as int) by {
                if chart_has(cc, category(g, r), i as int, j as int) {
                    assert(cc.rights(category(g, r), i as u16).contains(j as u16));
                } else {
                    let cell = ab.cell(i as int, j as int);
                    let q = choose|q: int|
                        0 <= q < cell.len() && cell[q].rule_idx == r && fresh(g, cell[q]) && #[trigger] pending(
                            g,
                            inp,
                            p0,
                            cell[q],
                            j as int,
                        );
                    if q == top {
                        lemma_matches_grows(
                            rule_rhs(g, r),
                            inp,
                            p0,
                            cc,
                            it.dot as int,
                            it.right as int,
                            j as int,
                        );
                        assert(pending(g, inp, cc, it, j as int));
                    } else {
                        assert(active.cell(i as int, j as int)[q] == cell[q]);
                    }
                }
            }
            assert forall|r: int, ss: Seq<Option<Span>>|
                j < 65536 && 0 <= r < g.rules@.len() && has_nonterminal(g, r) && ss.len() == rule_rhs(
                    g,
                    r,
                ).len() && #[trigger] matches_spans(rule_rhs(g, r), inp, p0, ss, 0, i as int, j as int)
                    implies has_item(cd.cell(i as int, j as int), r, ss) || seeded(
                g,
                inp,
                p0,
                active.cell(i as int, j as int),
                r,
                j as int,
            ) by {
                let occ = cc.cell(i as int, j as int);
                let ocd = cd.cell(i as int, j as int);
                assert(ocd.take(occ.len() as int) =~= ocd.take(occ.len() as int));
                if has_item(occ, r, ss) {
                    lemma_has_item_grows(occ, ocd, r, ss);
                } else {
                    let cell = ab.cell(i as int, j as int);
                    let q = choose|q: int|
                        0 <= q < cell.len() && cell[q].rule_idx == r && fresh(g, cell[q]) && #[trigger] pending(
                            g,
                            inp,
                            p0,
                            cell[q],
                            j as int,
                        );
                    if q == top {
                        assert(it.left == i);
                        lemma_fresh_pending(g, inp, p0, it, ss, j as int);
                        lemma_spans_grows(
                            rule_rhs(g, r),
                            inp,
                            p0,
                            cc,
                            ss,
                            it.dot as int,
                            it.right as int,
                            j as int,
                        );
                        assert(pending_ss(g, inp, cc, it, ss, j as int));
                    } else {
                        assert(active.cell(i as int, j as int)[q] == cell[q]);
                    }
                }
            }
        }
    }
    let ghost c3 = *passive;
    let ghost sv3 = crate::text::string_views(new_symbols@);
    proof {
        assert forall|q: int| 0 <= q < remaining@.len() implies active_ok(
            g,
            inp,
            c3,
            #[trigger] remaining@[q],
            i as int,
            j as int,
            false,
        ) by {}
    }
    self_fill(input, n, i, j, grammar, passive, &mut new_symbols, &remaining, Ghost(sound), Ghost(es), Ghost(gs));
    proof {
        let c4 = *passive;
        let sv4 = crate::text::string_views(new_symbols@);
        lemma_index_trans(p0, c3, c4);
        lemma_adds_trans(p0, c3, c4, i as int, j as int);
        lemma_fresh_trans(p0, c3, c4, sv3, sv4, i as int, j as int);
        lemma_cell_trans(
            p0.cell(i as int, j as int),
            c3.cell(i as int, j as int),
            c4.cell(i as int, j as int),
            g,
            i as int,
            j as int,
        );
        lemma_actives_grow(g, inp, *active, c3, c4, n as int, sound);
        if j < 65536 {
            assert forall|r: int|
                0 <= r < g.rules@.len() && has_nonterminal(g, r) && #[trigger] matches_to(
                    rule_rhs(g, r),
                    inp,
                    c4,
                    0,
                    i as int,
                    j as int,
                ) implies chart_has(c4, category(g, r), i as int, j as int) by {
                let rv = rule_rhs(g, r);
                lemma_matches_new_span(rv, inp, p0, c4, i as int, j as int);
                if !matches_to(rv, inp, p0, 0, i as int, j as int) {
                    let y = rv[0]->NT_0;
                    if chart_has(p0, y, i as int, j as int) {
                        assert(matches_to(rv, inp, p0, 1, j as int, j as int));
                        assert(matches_to(rv, inp, p0, 0, i as int, j as int));
                    } else {
                        let k = choose|k: int| 0 <= k < sv4.len() && sv4[k] == y;
                        assert(unary_over(g, r, sv4[k]));
                    }
                }
                if matches_to(rv, inp, p0, 0, i as int, j as int) {
                    assert(seed_goal(g, inp, p0, r, i as int, j as int));
                    assert(c3.rights(category(g, r), i as u16).contains(j as u16));
                }
            }
            let o3 = c3.cell(i as int, j as int);
            let o4 = c4.cell(i as int, j as int);
            assert forall|r: int, ss: Seq<Option<Span>>|
                0 <= r < g.rules@.len() && has_nonterminal(g, r) && ss.len() == rule_rhs(g, r).len()
                    && #[trigger] matches_spans(rule_rhs(g, r), inp, c4, ss, 0, i as int, j as int)
                    implies has_item(o4, r, ss) by {
                let rv = rule_rhs(g, r);
                lemma_spans_new_span(rv, inp, p0, c4, ss, i as int, j as int);
                if !matches_spans(rv, inp, p0, ss, 0, i as int, j as int) {
                    let y = rv[0]->NT_0;
                    assert(ss =~= unit_spans(i as int, j as int));
                    if chart_has(p0, y, i as int, j as int) {
                        assert(matches_spans(rv, inp, p0, ss, 1, j as int, j as int));
                        assert(matches_spans(rv, inp, p0, ss, 0, i as int, j as int));
                    } else {
                        let k = choose|k: int| 0 <= k < sv4.len() && sv4[k] == y;
                        assert(unary_over(g, r, sv4[k]));
                    }
                }
                if matches_spans(rv, inp, p0, ss, 0, i as int, j as int) {
                    assert(has_item(o3, r, ss));
                    lemma_has_item_grows(o3, o4, r, ss);
                }
            }
        }
    }
}

} // verus!
verus! {

/// Every span visited bottom-up from a width of at least one, within
/// `[0, r]`, is `(a, b)` with `0 <= a < b <= r`.
pub proof fn lemma_visit_bounds(from: int, r: int)
    requires
        1 <= from,
        0 <= r <= usize::MAX,
    ensures
        forall|t: int|
            0 <= t < visit_order(from, 0, r, 0).len() ==> 0 <= (#[trigger] visit_order(
                from,
                0,
                r,
                0,
            )[t]).0 < visit_order(from, 0, r, 0)[t].1 <= r,
    decreases r + 1 - from,
{
    if from <= r {
        lemma_visit_bounds(from + 1, r);
        let row = span_row(0, r, from);
        let rest = visit_order(from + 1, 0, r, 0);
        let v = visit_order(from, 0, r, 0);
        assert(v == row + rest);
        assert forall|t: int| 0 <= t < v.len() implies 0 <= (#[trigger] v[t]).0 < v[t].1 <= r by {
            if t < row.len() {
                assert(v[t] == row[t]);
            } else {
                assert(v[t] == rest[t - row.len()]);
            }
        }
    }
}

/// Every span `(a, b)` with `0 <= a < b <= r` whose width is at least
/// `from` is visited.
pub proof fn lemma_visit_covers(from: int, r: int, a: int, b: int)
    requires
        1 <= from <= b - a,
        0 <= a < b <= r <= usize::MAX,
    ensures
        visit_order(from, 0, r, 0).contains((a as usize, b as usize)),
    decreases b - a - from,
{
    let row = span_row(0, r, from);
    let rest = visit_order(from + 1, 0, r, 0);
    let v = visit_order(from, 0, r, 0);
    assert(v == row + rest);
    if from == b - a {
        assert(v[a] == row[a]);
        assert(v[a] == (a as usize, b as usize));
    } else {
        lemma_visit_covers(from + 1, r, a, b);
        let t = choose|t: int| 0 <= t < rest.len() && rest[t] == (a as usize, b as usize);
        assert(v[row.len() + t] == rest[t]);
    }
}

/// Parses the first `n` words of `input` bottom-up: for every span
/// `(i, j)`, `0 <= i < j <= n`, narrowest first and each width from left
/// to right, the active cell `(i, j)` is seeded, worked through and emptied,
/// and complete items of `(i, j)` go to the passive chart under their
/// categories. The passive chart only grows, and only in those cells, by
/// complete items; when it was sound and the active items were matched, it
/// stays sound: every item in it is matched against the input and the
/// entries it records. And it ends up closed under the rules with a
/// nonterminal: whenever such a rule's right-hand side can be matched over
/// a span `(a, b)`, `0 <= a < b <= n` (its words by the input words, its
/// nonterminals by entries that the chart records), its category is
/// recorded over `(a, b)`, and for every way to match it (each
/// nonterminal by the span of a recorded entry) the cell `(a, b)` holds an
/// item of the rule with those spans (for inputs of fewer than 65536
/// words, whose positions the chart keeps as `u16`). When the chart
/// already recorded every match of the rules without nonterminals (as
/// `init` leaves it), every rule that can be matched over a span has its
/// category recorded there. It needs only that what it completes has a
/// nonterminal on the left and that the chart can number the categories it
/// records (`parse_room`).
pub fn parse(
    input: &[String],
    n: usize,
    active_chart: &mut Chart,
    passive_chart: &mut Chart,
    grammar: &Grammar,
)
    requires
        n <= input@.len(),
        grammar.wf(),
        parse_room(
            *grammar,
            crate::text::string_views(input@),
            *old(active_chart),
            *old(passive_chart),
            n as int,
        ),
        rhs_lengths_fit(*grammar, n as int),
        old(active_chart).inv(),
        old(passive_chart).inv(),
        n <= old(active_chart).size(),
        n <= old(passive_chart).size(),
        symbols_are_categories(*grammar, *old(passive_chart)),
        actives_ok(
            *grammar,
            crate::text::string_views(input@),
            *old(active_chart),
            *old(passive_chart),
            n as int,
            false,
        ),
    ensures
        final(active_chart).inv(),
        final(active_chart).size() == old(active_chart).size(),
        forall|a: int, b: int| 0 <= a < b <= n ==> #[trigger] final(active_chart).cell(a, b).len() == 0,
        forall|a: int, b: int|
            0 <= a <= old(active_chart).size() && 0 <= b <= old(active_chart).size() && !(0 <= a < b
                <= n) ==> #[trigger] final(active_chart).cell(a, b) == old(active_chart).cell(a, b),
        final(passive_chart).inv(),
        final(passive_chart).size() == old(passive_chart).size(),
        index_grows(*old(passive_chart), *final(passive_chart)),
        symbols_are_categories(*grammar, *final(passive_chart)),
        forall|a: int, b: int|
            0 <= a <= old(passive_chart).size() && 0 <= b <= old(passive_chart).size() ==> cell_grows(
                old(passive_chart).cell(a, b),
                #[trigger] final(passive_chart).cell(a, b),
                *grammar,
                a,
                b,
            ),
        forall|a: int, b: int|
            0 <= a <= old(passive_chart).size() && 0 <= b <= old(passive_chart).size() && !(0 <= a < b
                <= n) ==> #[trigger] final(passive_chart).cell(a, b) == old(passive_chart).cell(a, b),
        old(passive_chart).size() < 65536 && chart_sound(
            *grammar,
            crate::text::string_views(input@),
            *old(passive_chart),
        ) && actives_ok(
            *grammar,
            crate::text::string_views(input@),
            *old(active_chart),
            *old(passive_chart),
            n as int,
            true,
        ) ==> chart_sound(*grammar, crate::text::string_views(input@), *final(passive_chart)),
        n < 65536 ==> forall|a: int, b: int|
            0 <= a < b <= n ==> #[trigger] complete_span(
                *grammar,
                crate::text::string_views(input@),
                *final(passive_chart),
                a,
                b,
            ),
        n < 65536 ==> forall|a: int, b: int|
            0 <= a < b <= n ==> #[trigger] items_complete(
                *grammar,
                crate::text::string_views(input@),
                *final(passive_chart),
                a,
                b,
            ),
        n < 65536 && flat_complete(
            *grammar,
            crate::text::string_views(input@),
            *old(passive_chart),
            n as int,
        ) ==> all_complete(
            *grammar,
            crate::text::string_views(input@),
            *final(passive_chart),
            n as int,
        ),
{
    let ghost g = *grammar;
    let ghost inp = crate::text::string_views(input@);
    let ghost a0 = *active_chart;
    let ghost p0 = *passive_chart;
    let ghost (es, gs) = choose|es: Set<(Seq<char>, u16, u16)>, gs: Seq<Seq<char>>|
        parse_room_in(g, inp, a0, p0, n as int, es, gs);
    let ghost sound = p0.size() < 65536 && chart_sound(g, inp, p0) && actives_ok(
        g,
        inp,
        a0,
        p0,
        n as int,
        true,
    );
    let spans = visit(1, 0, n, 0);
    proof {
        lemma_visit_bounds(1, n as int);
        lemma_visit_distinct(1, n as int);
        lemma_visit_sorted(1, n as int);
        assert forall|a: int, b: int|
            0 <= a <= p0.size() && 0 <= b <= p0.size() implies cell_grows(
            p0.cell(a, b),
            #[trigger] passive_chart.cell(a, b),
            g,
            a,
            b,
        ) by {
            assert(p0.cell(a, b).take(p0.cell(a, b).len() as int) =~= p0.cell(a, b));
        }
    }
    let mut t: usize = 0;
    while t < spans.len()
        invariant
            t <= spans@.len(),
            spans@ == visit_order(1, 0, n as int, 0),
            forall|z: int|
                0 <= z < spans@.len() ==> 0 <= (#[trigger] spans@[z]).0 < spans@[z].1 <= n,
            g == *grammar,
            inp == crate::text::string_views(input@),
            n <= input@.len(),
            g.wf(),
            gs.len() <= 65535,
            forall|s: Seq<char>| #[trigger] passive_chart.known(s) ==> gs.contains(s),
            chart_in(*passive_chart, es),
            rules_safe(g, inp, es, gs, n as int),
            actives_safe(g, inp, es, gs, *active_chart, n as int),
            rhs_lengths_fit(g, n as int),
            n <= a0.size(),
            n <= p0.size(),
            active_chart.inv(),
            active_chart.size() == a0.size(),
            forall|z: int|
                0 <= z < t ==> active_chart.cell(
                    (#[trigger] spans@[z]).0 as int,
                    spans@[z].1 as int,
                ).len() == 0,
            forall|a: int, b: int|
                0 <= a <= a0.size() && 0 <= b <= a0.size() && !(0 <= a < b <= n)
                    ==> #[trigger] active_chart.cell(a, b) == a0.cell(a, b),
            passive_chart.inv(),
            passive_chart.size() == p0.size(),
            index_grows(p0, *passive_chart),
            symbols_are_categories(g, *passive_chart),
            sound ==> p0.size() < 65536 && chart_sound(g, inp, *passive_chart),
            forall|a: int, b: int|
                0 <= a <= p0.size() && 0 <= b <= p0.size() ==> cell_grows(
                    p0.cell(a, b),
                    #[trigger] passive_chart.cell(a, b),
                    g,
                    a,
                    b,
                ),
            forall|a: int, b: int|
                0 <= a <= p0.size() && 0 <= b <= p0.size() && !(0 <= a < b <= n)
                    ==> #[trigger] passive_chart.cell(a, b) == p0.cell(a, b),
            actives_ok(g, inp, *active_chart, *passive_chart, n as int, sound),
            spans@.no_duplicates(),
            forall|z1: int, z2: int|
                0 <= z1 <= z2 < spans@.len() ==> (#[trigger] spans@[z1]).1 - spans@[z1].0 <= (
                #[trigger] spans@[z2]).1 - spans@[z2].0,
            n < 65536 ==> forall|z: int|
                0 <= z < t ==> items_complete(
                    g,
                    inp,
                    *passive_chart,
                    (#[trigger] spans@[z]).0 as int,
                    spans@[z].1 as int,
                ),
            n < 65536 ==> forall|z: int|
                0 <= z < t ==> complete_span(
                    g,
                    inp,
                    *passive_chart,
                    (#[trigger] spans@[z]).0 as int,
                    spans@[z].1 as int,
                ),
        decreases spans.len() - t,
    {
        let (i, j) = spans[t];
        proof {
            assert(spans@[t as int] == (i, j));
        }
        let ghost ab = *active_chart;
        let ghost pb = *passive_chart;
        parse_span(
            input,
            n,
            i,
            j,
            active_chart,
            passive_chart,
            grammar,
            Ghost(sound),
            Ghost(es),
            Ghost(gs),
        );
        proof {
            let pc = *passive_chart;
            lemma_index_trans(p0, pb, pc);
            assert forall|a: int, b: int|
                0 <= a <= p0.size() && 0 <= b <= p0.size() implies cell_grows(
                p0.cell(a, b),
                #[trigger] pc.cell(a, b),
                g,
                a,
                b,
            ) by {
                assert(cell_grows(p0.cell(a, b), pb.cell(a, b), g, a, b));
                if a == i && b == j {
                    lemma_cell_trans(p0.cell(a, b), pb.cell(a, b), pc.cell(a, b), g, a, b);
                } else {
                    assert(pc.cell(a, b) == pb.cell(a, b));
                }
            }
            if n < 65536 {
                assert forall|z: int| 0 <= z < t + 1 implies complete_span(
                    g,
                    inp,
                    pc,
                    (#[trigger] spans@[z]).0 as int,
                    spans@[z].1 as int,
                ) by {
                    if z < t {
                        let (a, b) = spans@[z];
                        assert(spans@[z] != spans@[t as int]);
                        assert(spans@[z].1 - spans@[z].0 <= spans@[t as int].1 - spans@[t as int].0);
                        lemma_complete_kept(
                            g,
                            inp,
                            pb,
                            pc,
                            a as int,
                            b as int,
                            i as int,
                            j as int,
                        );
                    }
                }
                assert forall|z: int| 0 <= z < t + 1 implies items_complete(
                    g,
                    inp,
                    pc,
                    (#[trigger] spans@[z]).0 as int,
                    spans@[z].1 as int,
                ) by {
                    if z < t {
                        let (a, b) = spans@[z];
                        assert(spans@[z] != spans@[t as int]);
                        assert(spans@[z].1 - spans@[z].0 <= spans@[t as int].1 - spans@[t as int].0);
                        assert(pc.cell(a as int, b as int) == pb.cell(a as int, b as int));
                        lemma_items_kept(g, inp, pb, pc, a as int, b as int, i as int, j as int);
                    }
                }
            }
            assert forall|z: int| 0 <= z < t + 1 implies active_chart.cell(
                (#[trigger] spans@[z]).0 as int,
                spans@[z].1 as int,
            ).len() == 0 by {
                if z < t {
                    let (a, b) = spans@[z];
                    if !(a == i && b == j) {
                        assert(active_chart.cell(a as int, b as int) == ab.cell(a as int, b as int));
                    }
                }
            }
        }
        t += 1;
    }
    proof {
        assert forall|a: int, b: int| 0 <= a < b <= n implies #[trigger] active_chart.cell(
            a,
            b,
        ).len() == 0 by {
            lemma_visit_covers(1, n as int, a, b);
            let z = choose|z: int| 0 <= z < spans@.len() && spans@[z] == (a as usize, b as usize);
            assert(active_chart.cell(spans@[z].0 as int, spans@[z].1 as int).len() == 0);
        }
        if n < 65536 {
            assert forall|a: int, b: int| 0 <= a < b <= n implies #[trigger] complete_span(
                g,
                inp,
                *passive_chart,
                a,
                b,
            ) by {
                lemma_visit_covers(1, n as int, a, b);
                let z = choose|z: int| 0 <= z < spans@.len() && spans@[z] == (a as usize, b as usize);
                assert(complete_span(g, inp, *passive_chart, spans@[z].0 as int, spans@[z].1 as int));
            }
            assert forall|a: int, b: int| 0 <= a < b <= n implies #[trigger] items_complete(
                g,
                inp,
                *passive_chart,
                a,
                b,
            ) by {
                lemma_visit_covers(1, n as int, a, b);
                let z = choose|z: int| 0 <= z < spans@.len() && spans@[z] == (a as usize, b as usize);
                assert(items_complete(g, inp, *passive_chart, spans@[z].0 as int, spans@[z].1 as int));
            }
            if flat_complete(g, inp, p0, n as int) {
                let c = *passive_chart;
                assert forall|a: int, b: int, r: int|
                    0 <= a < b <= n && 0 <= r < g.rules@.len() && #[trigger] matches_to(
                        rule_rhs(g, r),
                        inp,
                        c,
                        0,
                        a,
                        b,
                    ) implies chart_has(c, category(g, r), a, b) by {
                    assert(complete_span(g, inp, c, a, b));
                    if !has_nonterminal(g, r) {
                        let rv = rule_rhs(g, r);
                        assert forall|k: int| 0 <= k < rv.len() implies (#[trigger] rv[k]) is T by {
                            if rv[k] is NT {
                                assert(has_nonterminal(g, r));
                            }
                        }
                        lemma_matches_words(rv, inp, c, p0, 0, a, b);
                        assert(p0.rights(category(g, r), a as u16).contains(b as u16));
                    }
                }
            }
        }
    }
}

/// What a later span records keeps the items of `(a, b)` complete.
proof fn lemma_items_kept(
    g: Grammar,
    input: Seq<Seq<char>>,
    c1: Chart,
    c2: Chart,
    a: int,
    b: int,
    x: int,
    y: int,
)
    requires
        items_complete(g, input, c1, a, b),
        adds_only_at(c1, c2, x, y),
        c2.cell(a, b) == c1.cell(a, b),
        0 <= a < b < 65536,
        0 <= x < y < 65536,
        b - a <= y - x,
        !(a == x && b == y),
    ensures
        items_complete(g, input, c2, a, b),
{
    assert forall|r: int, ss: Seq<Option<Span>>|
        0 <= r < g.rules@.len() && has_nonterminal(g, r) && ss.len() == rule_rhs(g, r).len()
            && #[trigger] matches_spans(rule_rhs(g, r), input, c2, ss, 0, a, b) implies has_item(
        c2.cell(a, b),
        r,
        ss,
    ) by {
        lemma_spans_frame(rule_rhs(g, r), input, c1, c2, ss, 0, a, b, a, x, y);
    }
}

/// A later span, no narrower than `(a, b)` and not `(a, b)` itself, does
/// not lie within it, so what it records keeps `(a, b)` complete.
proof fn lemma_complete_kept(
    g: Grammar,
    input: Seq<Seq<char>>,
    c1: Chart,
    c2: Chart,
    a: int,
    b: int,
    x: int,
    y: int,
)
    requires
        complete_span(g, input, c1, a, b),
        adds_only_at(c1, c2, x, y),
        index_grows(c1, c2),
        0 <= a < b < 65536,
        0 <= x < y < 65536,
        b - a <= y - x,
        !(a == x && b == y),
    ensures
        complete_span(g, input, c2, a, b),
{
    assert forall|r: int|
        0 <= r < g.rules@.len() && has_nonterminal(g, r) && #[trigger] matches_to(
            rule_rhs(g, r),
            input,
            c2,
            0,
            a,
            b,
        ) implies chart_has(c2, category(g, r), a, b) by {
        lemma_matches_frame(rule_rhs(g, r), input, c1, c2, 0, a, b, a, x, y);
        assert(c1.rights(category(g, r), a as u16).contains(b as u16));
    }
}

/// A bottom-up visit takes the spans in order of width.
proof fn lemma_visit_sorted(from: int, r: int)
    requires
        1 <= from,
        0 <= r <= usize::MAX,
    ensures
        forall|z1: int, z2: int|
            0 <= z1 <= z2 < visit_order(from, 0, r, 0).len() ==> (#[trigger] visit_order(
                from,
                0,
                r,
                0,
            )[z1]).1 - visit_order(from, 0, r, 0)[z1].0 <= (#[trigger] visit_order(
                from,
                0,
                r,
                0,
            )[z2]).1 - visit_order(from, 0, r, 0)[z2].0,
    decreases r + 1 - from,
{
    if from <= r {
        lemma_visit_sorted(from + 1, r);
        lemma_visit_widths(from + 1, r);
        let row = span_row(0, r, from);
        let rest = visit_order(from + 1, 0, r, 0);
        let v = visit_order(from, 0, r, 0);
        assert(v == row + rest);
        assert forall|z1: int, z2: int| 0 <= z1 <= z2 < v.len() implies (#[trigger] v[z1]).1 - v[z1].0
            <= (#[trigger] v[z2]).1 - v[z2].0 by {
            if z2 < row.len() {
                assert(v[z1] == row[z1] && v[z2] == row[z2]);
            } else if z1 < row.len() {
                assert(v[z1] == row[z1]);
                assert(v[z2] == rest[z2 - row.len()]);
            } else {
                assert(v[z1] == rest[z1 - row.len()]);
                assert(v[z2] == rest[z2 - row.len()]);
            }
        }
    }
}

} // verus!
verus! {

// ------------------------------------------------------------------- laws

/// What `Chart::add` records, `Chart::has`, `Chart::rights_for` and
/// `Chart::has_any_at` read back: after adding an item over `(i, j)` under
/// `sym`, the chart has `(sym, i, j)`, the right ends of `sym` at `i` are
/// those before and `j`, in increasing order, and every other symbol and
/// left end reads as before.
pub proof fn lemma_add_then_has(c0: Chart, c1: Chart, item: Item, i: int, j: int, sym: Seq<char>)
    requires
        chart_added(c0, c1, item, i, j, sym),
    ensures
        c1.rights(sym, i as u16).contains(j as u16),
        c1.rights(sym, i as u16).len() > 0,
        increasing(c1.rights(sym, i as u16)),
        forall|r: u16|
            #[trigger] c1.rights(sym, i as u16).contains(r) <==> (c0.rights(sym, i as u16).contains(r)
                || r == j as u16),
        forall|s: Seq<char>, l: u16|
            !(s == sym && l == i as u16) ==> #[trigger] c1.rights(s, l) == c0.rights(s, l),
        c1.known(sym),
{
    c0.lemma_rights_increasing(sym, i as u16);
    lemma_with_right(c0.rights(sym, i as u16), j as u16);
}

/// A new chart is sound: it holds no item and records no entry.
pub proof fn lemma_new_chart_sound(g: Grammar, input: Seq<Seq<char>>, c: Chart)
    requires
        forall|i: int, j: int| 0 <= i <= c.size() && 0 <= j <= c.size() ==> c.cell(i, j).len() == 0,
        forall|s: Seq<char>, l: u16| #[trigger] c.rights(s, l).len() == 0,
        forall|s: Seq<char>| !c.known(s),
    ensures
        chart_sound(g, input, c),
{
    assert forall|s: Seq<char>, l: int, r: int|
        0 <= l <= c.size() && 0 <= r <= c.size() && #[trigger] chart_has(c, s, l, r) implies exists|k: int|
        0 <= k < c.cell(l, r).len() && category(g, c.cell(l, r)[k].rule_idx as int) == s by {
        assert(c.rights(s, l as u16).len() == 0);
    }
}

/// Every span of a bottom-up visit has a width of at least `from`, and the
/// spans of one width come in one run.
proof fn lemma_visit_widths(from: int, r: int)
    requires
        1 <= from,
        0 <= r <= usize::MAX,
    ensures
        forall|t: int|
            0 <= t < visit_order(from, 0, r, 0).len() ==> (#[trigger] visit_order(from, 0, r, 0)[t]).1
                - visit_order(from, 0, r, 0)[t].0 >= from,
    decreases r + 1 - from,
{
    if from <= r {
        lemma_visit_widths(from + 1, r);
        let row = span_row(0, r, from);
        let rest = visit_order(from + 1, 0, r, 0);
        let v = visit_order(from, 0, r, 0);
        assert forall|t: int| 0 <= t < v.len() implies (#[trigger] v[t]).1 - v[t].0 >= from by {
            if t < row.len() {
                assert(v[t] == row[t]);
            } else {
                assert(v[t] == rest[t - row.len()]);
            }
        }
    }
}

/// The bottom-up visit of the spans of `[0, r]` takes each span once.
pub proof fn lemma_visit_distinct(from: int, r: int)
    requires
        1 <= from,
        0 <= r <= usize::MAX,
    ensures
        visit_order(from, 0, r, 0).no_duplicates(),
    decreases r + 1 - from,
{
    if from <= r {
        lemma_visit_distinct(from + 1, r);
        lemma_visit_widths(from + 1, r);
        let row = span_row(0, r, from);
        let rest = visit_order(from + 1, 0, r, 0);
        let v = visit_order(from, 0, r, 0);
        assert forall|a: int, b: int| 0 <= a < v.len() && 0 <= b < v.len() && a != b implies v[a]
            != v[b] by {
            if a < row.len() && b < row.len() {
                assert(v[a] == row[a] && v[b] == row[b]);
            } else if a < row.len() {
                assert(v[a] == row[a]);
                assert(v[b] == rest[b - row.len()]);
            } else if b < row.len() {
                assert(v[b] == row[b]);
                assert(v[a] == rest[a - row.len()]);
            } else {
                assert(v[a] == rest[a - row.len()]);
                assert(v[b] == rest[b - row.len()]);
            }
        }
    }
}

} // verus!
verus! {

// ------------------------------------------------------ derivations found

/// `q` cuts the span from `p` to `j` into two parts, the first non-empty.
pub open spec fn cut(p: int, q: int, j: int) -> bool {
    p < q <= j
}

/// Category `s` derives the input over `(i, j)` in at most `d` nested
/// steps: a rule with `s` on its left-hand side has a right-hand side whose
/// words match the input and whose nonterminals derive the spans between.
pub open spec fn derives(g: Grammar, input: Seq<Seq<char>>, s: Seq<char>, i: int, j: int, d: nat) -> bool
    decreases d, 0nat, 0int,
{
    d > 0 && exists|r: int|
        0 <= r < g.rules@.len() && g.rules@[r].lhs@ is NT && #[trigger] category(g, r) == s && rhs_derives(
            g,
            input,
            rule_rhs(g, r),
            0,
            i,
            j,
            (d - 1) as nat,
        )
}

/// The symbols of `rhs` from the `k`-th on derive the input from `p`
/// exactly up to `j`, each nonterminal a span of at least one word, in at
/// most `d` nested steps.
pub open spec fn rhs_derives(
    g: Grammar,
    input: Seq<Seq<char>>,
    rhs: Seq<SymbolView>,
    k: int,
    p: int,
    j: int,
    d: nat,
) -> bool
    decreases d, 1nat, rhs.len() - k,
{
    if k < 0 || k > rhs.len() {
        false
    } else if k == rhs.len() {
        p == j
    } else {
        match rhs[k] {
            SymbolView::T(w) => p < j && 0 <= p < input.len() && input[p] == w && rhs_derives(
                g,
                input,
                rhs,
                k + 1,
                p + 1,
                j,
                d,
            ),
            SymbolView::NT(s, _) => exists|q: int|
                #[trigger] cut(p, q, j) && derives(g, input, s, p, q, d) && rhs_derives(
                    g,
                    input,
                    rhs,
                    k + 1,
                    q,
                    j,
                    d,
                ),
        }
    }
}

/// A chart that records the category of every rule that can be matched
/// over a span of the first `n` words records every category that derives
/// such a span: after `init` and `parse`, every derivation of a part of the
/// input is found.
pub proof fn lemma_derived_recorded(
    g: Grammar,
    input: Seq<Seq<char>>,
    chart: Chart,
    n: int,
    s: Seq<char>,
    i: int,
    j: int,
    d: nat,
)
    requires
        all_complete(g, input, chart, n),
        0 <= i < j <= n,
        derives(g, input, s, i, j, d),
    ensures
        chart_has(chart, s, i, j),
    decreases d, 0nat, 0int,
{
    let r = choose|r: int|
        0 <= r < g.rules@.len() && g.rules@[r].lhs@ is NT && #[trigger] category(g, r) == s && rhs_derives(
            g,
            input,
            rule_rhs(g, r),
            0,
            i,
            j,
            (d - 1) as nat,
        );
    lemma_rhs_derived(g, input, chart, n, rule_rhs(g, r), 0, i, j, (d - 1) as nat);
}

proof fn lemma_rhs_derived(
    g: Grammar,
    input: Seq<Seq<char>>,
    chart: Chart,
    n: int,
    rhs: Seq<SymbolView>,
    k: int,
    p: int,
    j: int,
    d: nat,
)
    requires
        all_complete(g, input, chart, n),
        0 <= p,
        j <= n,
        rhs_derives(g, input, rhs, k, p, j, d),
    ensures
        matches_to(rhs, input, chart, k, p, j),
    decreases d, 1nat, rhs.len() - k,
{
    if k < rhs.len() {
        match rhs[k] {
            SymbolView::T(w) => {
                lemma_rhs_derived(g, input, chart, n, rhs, k + 1, p + 1, j, d);
            },
            SymbolView::NT(s, _) => {
                let q = choose|q: int|
                    #[trigger] cut(p, q, j) && derives(g, input, s, p, q, d) && rhs_derives(
                        g,
                        input,
                        rhs,
                        k + 1,
                        q,
                        j,
                        d,
                    );
                lemma_derived_recorded(g, input, chart, n, s, p, q, d);
                lemma_rhs_derived(g, input, chart, n, rhs, k + 1, q, j, d);
                assert(chart_has(chart, s, p, q));
            },
        }
    }
}

} // verus!
verus! {

// ----------------------------------------------------- room for categories

/// `gs` lists the category of every rule.
pub open spec fn lists_categories(g: Grammar, gs: Seq<Seq<char>>) -> bool {
    forall|r: int| 0 <= r < g.rules@.len() ==> gs.contains(#[trigger] category(g, r))
}

/// The rules that `init` applies are among those listed.
proof fn lemma_fits_in(lst: Seq<usize>, g: Grammar, input: Seq<Seq<char>>, n: int, a: int, b: int)
    ensures
        forall|q: int|
            0 <= q < fits_of(lst, g, input, n, a, b).len() ==> lst.contains(
                #[trigger] fits_of(lst, g, input, n, a, b)[q],
            ),
    decreases lst.len(),
{
    if lst.len() > 0 {
        lemma_fits_in(lst.drop_last(), g, input, n, a, b);
        let f = fits_of(lst, g, input, n, a, b);
        let r = fits_of(lst.drop_last(), g, input, n, a, b);
        assert forall|q: int| 0 <= q < f.len() implies lst.contains(#[trigger] f[q]) by {
            if q < r.len() {
                assert(f[q] == r[q]);
                let w = choose|w: int| 0 <= w < lst.drop_last().len() && lst.drop_last()[w] == r[q];
                assert(lst[w] == r[q]);
            } else {
                assert(f[q] == lst[lst.len() - 1]);
            }
        }
    }
}

/// When every rule has a nonterminal on its left-hand side and at most
/// 65535 symbols list every category, `init` and `parse` have the room
/// they need (`flat_hits_nt`, `flat_room`, `parse_room`), for every input,
/// given charts as `Chart::new` and `init` leave them: the passive chart
/// knows only categories, and the active items of the cells to parse name
/// rules of the grammar.
pub proof fn lemma_room_from_categories(
    g: Grammar,
    input: Seq<Seq<char>>,
    active: Chart,
    passive: Chart,
    n: int,
    gs: Seq<Seq<char>>,
)
    requires
        g.wf(),
        g.lhs_nt(),
        gs.len() <= 65535,
        lists_categories(g, gs),
        symbols_are_categories(g, passive),
        forall|a: int, b: int, q: int|
            0 <= a < b <= n && 0 <= q < active.cell(a, b).len() ==> (#[trigger] active.cell(
                a,
                b,
            )[q]).rule_idx < g.rules@.len(),
    ensures
        flat_hits_nt(g, input, n),
        flat_room(g, input, n, passive),
        parse_room(g, input, active, passive, n),
{
    assert forall|a: int, b: int, q: int|
        0 <= a < n && 0 <= q < flat_hits(g, input, n, a, b).len() implies (#[trigger] flat_hits(
            g,
            input,
            n,
            a,
            b,
        )[q]) < g.rules@.len() by {
        let lst = g.flat_by_first_word.lookup(input[a]);
        lemma_fits_in(lst, g, input, n, a, b);
        let x = flat_hits(g, input, n, a, b)[q];
        assert(lst.contains(x));
        let w = choose|w: int| 0 <= w < lst.len() && lst[w] == x;
        assert(crate::grammar::lists_exactly(
            lst,
            g.rules@,
            crate::grammar::RuleKind::Flat,
            Some(input[a]),
        ));
    }
    assert forall|s: Seq<char>| #[trigger] passive.known(s) implies gs.contains(s) by {
        assert(is_category(g, s));
        let r = choose|r: int| 0 <= r < g.rules@.len() && #[trigger] category(g, r) == s;
    }
    assert(flat_room_in(g, input, n, passive, gs));
    let es = Set::new(
        |e: (Seq<char>, u16, u16)| gs.contains(e.0) || passive.rights(e.0, e.1).contains(e.2),
    );
    assert(chart_in(passive, es));
    assert(rules_safe(g, input, es, gs, n));
    assert forall|a: int, b: int, q: int|
        0 <= a < b <= n && 0 <= q < active.cell(a, b).len() && next_nt(
            g,
            #[trigger] active.cell(a, b)[q],
        ) implies item_safe(g, input, es, gs, active.cell(a, b)[q], a, b) by {
        let r = active.cell(a, b)[q].rule_idx as int;
        assert(g.rules@[r].lhs@ is NT);
        assert(gs.contains(category(g, r)));
    }
    assert(parse_room_in(g, input, active, passive, n, es, gs));
}

/// Whether every rule has a nonterminal on its left-hand side and at most
/// 65535 symbols can list every category (then
/// `lemma_room_from_categories` applies).
pub fn categories_fit(grammar: &Grammar) -> (r: bool)
    ensures
        r == (grammar.lhs_nt() && exists|gs: Seq<Seq<char>>|
            gs.len() <= 65535 && lists_categories(*grammar, gs)),
{
    let mut cats: Vec<String> = Vec::new();
    let mut i: usize = 0;
    while i < grammar.rules.len()
        invariant
            i <= grammar.rules@.len(),
            cats@.len() <= 65535,
            forall|r: int| 0 <= r < i ==> (#[trigger] grammar.rules@[r]).lhs@ is NT,
            forall|r: int| 0 <= r < i ==> crate::text::string_views(cats@).contains(#[trigger] category(*grammar, r)),
            forall|k: int|
                0 <= k < cats@.len() ==> exists|r: int| 0 <= r < i && category(*grammar, r) == #[trigger] cats@[k]@,
            crate::text::string_views(cats@).no_duplicates(),
        decreases grammar.rules@.len() - i,
    {
        let lhs = &grammar.rules[i].lhs;
        if !lhs.is_nt() {
            assert(!grammar.lhs_nt());
            return false;
        }
        let s = lhs.nt_symbol();
        assert(s@ == category(*grammar, i as int));
        let mut k: usize = 0;
        let mut found = false;
        while k < cats.len()
            invariant
                k <= cats@.len(),
                found ==> crate::text::string_views(cats@).contains(s@),
                !found ==> forall|q: int| 0 <= q < k ==> cats@[q]@ != s@,
            decreases cats@.len() - k,
        {
            if crate::text::str_eq(cats[k].as_str(), s) {
                found = true;
                assert(crate::text::string_views(cats@)[k as int] == s@);
            }
            k += 1;
        }
        if !found {
            if cats.len() == 65535 {
                proof {
                    let big = crate::text::string_views(cats@).push(s@);
                    assert(big.no_duplicates()) by {
                        assert forall|p: int, q: int| 0 <= p < q < big.len() implies big[p] != big[q] by {
                            if q == big.len() - 1 {
                                assert(big[p] == cats@[p]@);
                            }
                        }
                    }
                    big.unique_seq_to_set();
                    if grammar.lhs_nt() {
                        assert forall|gs: Seq<Seq<char>>| lists_categories(*grammar, gs) implies gs.len() > 65535 by {
                            assert forall|x: Seq<char>| big.to_set().contains(x) implies gs.to_set().contains(x) by {
                                let p = choose|p: int| 0 <= p < big.len() && big[p] == x;
                                if p < cats@.len() {
                                    assert(big[p] == cats@[p]@);
                                    let r = choose|r: int| 0 <= r < i && category(*grammar, r) == cats@[p]@;
                                    assert(gs.contains(category(*grammar, r)));
                                } else {
                                    assert(gs.contains(category(*grammar, i as int)));
                                }
                            }
                            vstd::set_lib::lemma_len_subset(big.to_set(), gs.to_set());
                            gs.lemma_cardinality_of_set();
                        }
                    }
                }
                return false;
            }
            let ghost before = cats@;
            cats.push(s.to_string());
            proof {
                let sv = crate::text::string_views(cats@);
                assert(sv == crate::text::string_views(before).push(s@));
                assert(sv.no_duplicates()) by {
                    assert forall|p: int, q: int| 0 <= p < q < sv.len() implies sv[p] != sv[q] by {
                        if q == sv.len() - 1 {
                            assert(sv[p] == before[p]@);
                        } else {
                            assert(sv[p] == crate::text::string_views(before)[p]);
                            assert(sv[q] == crate::text::string_views(before)[q]);
                        }
                    }
                }
                assert forall|r: int| 0 <= r <= i implies sv.contains(#[trigger] category(*grammar, r)) by {
                    if r < i {
                        let w = choose|w: int| 0 <= w < before.len() && crate::text::string_views(before)[w] == category(*grammar, r);
                        assert(sv[w] == crate::text::string_views(before)[w]);
                    } else {
                        assert(sv[before.len() as int] == s@);
                    }
                }
                assert forall|k: int| 0 <= k < cats@.len() implies exists|r: int| 0 <= r < i + 1 && category(*grammar, r) == #[trigger] cats@[k]@ by {
                    if k < before.len() {
                        assert(cats@[k] == before[k]);
                        let r = choose|r: int| 0 <= r < i && category(*grammar, r) == before[k]@;
                    } else {
                        assert(category(*grammar, i as int) == cats@[k]@);
                    }
                }
            }
        }
        i += 1;
    }
    proof {
        let sv = crate::text::string_views(cats@);
        assert(sv.len() <= 65535);
        assert(lists_categories(*grammar, sv));
    }
    true
}

} // verus!

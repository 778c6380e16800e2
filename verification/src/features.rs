//! Feature names with the text of their values, as a rule or a weights
//! file writes them (`name=value` pairs).
use vstd::prelude::*;

use crate::text::{pieces, split_char, split_once, split_once_at, str_views, trim, trimmed};

verus! {

pub open spec fn kv_entries(ps: Seq<Seq<char>>, kv: char) -> Seq<(Seq<char>, Seq<char>)>
    decreases ps.len(),
{
    if ps.len() == 0 {
        Seq::empty()
    } else {
        let rest = kv_entries(ps.drop_last(), kv);
        match kv_entry(ps.last(), kv) {
            Some(e) => rest.push(e),
            None => rest,
        }
    }
}

/// The pair that one piece contributes: nothing when it is blank or has no
/// separator, else its trimmed name and value texts.
pub open spec fn kv_entry(piece: Seq<char>, kv: char) -> Option<(Seq<char>, Seq<char>)> {
    let t = trimmed(piece);
    if t.len() == 0 {
        None
    } else {
        match split_once_at(t, kv) {
            Some((k, v)) => Some((trimmed(k), trimmed(v))),
            None => None,
        }
    }
}

/// The name/value pairs of `s`, whose pairs are separated by `pair_sep` and
/// whose names are separated from values by `kv_sep`.
pub open spec fn kv_text(s: Seq<char>, kv_sep: char, pair_sep: char) -> Seq<(Seq<char>, Seq<char>)> {
    kv_entries(pieces(s, pair_sep), kv_sep)
}

pub open spec fn pairs_view(v: Seq<(String, String)>) -> Seq<(Seq<char>, Seq<char>)> {
    v.map_values(|p: (String, String)| (p.0@, p.1@))
}

/// Named feature values, in the order they were written.
#[derive(Debug)]
pub struct Features {
    pub pairs: Vec<(String, String)>,
}

impl View for Features {
    type V = Seq<(Seq<char>, Seq<char>)>;

    open spec fn view(&self) -> Seq<(Seq<char>, Seq<char>)> {
        pairs_view(self.pairs@)
    }
}

impl Clone for Features {
    fn clone(&self) -> (r: Self)
        ensures
            r@ == self@,
    {
        let mut pairs: Vec<(String, String)> = Vec::new();
        let mut i: usize = 0;
        while i < self.pairs.len()
            invariant
                i <= self.pairs.len(),
                pairs_view(pairs@) == self@.take(i as int),
            decreases self.pairs.len() - i,
        {
            let ghost before = pairs@;
            let a = self.pairs[i].0.clone();
            let b = self.pairs[i].1.clone();
            pairs.push((a, b));
            proof {
                assert(pairs_view(pairs@) =~= pairs_view(before).push((a@, b@)));
                assert(self@.take(i + 1) =~= self@.take(i as int).push((a@, b@)));
            }
            i += 1;
        }
        assert(self@.take(self.pairs.len() as int) =~= self@);
        Features { pairs }
    }
}

impl Features {
    pub fn new() -> (r: Features)
        ensures
            r@ == Seq::<(Seq<char>, Seq<char>)>::empty(),
    {
        let r = Features { pairs: Vec::new() };
        assert(r@ =~= Seq::<(Seq<char>, Seq<char>)>::empty());
        r
    }

    /// Reads `name<kv_sep>value` pairs separated by `pair_sep`, keeping the
    /// trimmed name and value text of every piece that has a separator.
    pub fn from_kv(s: &str, kv_sep: char, pair_sep: char) -> (r: Features)
        ensures
            r@ == kv_text(s@, kv_sep, pair_sep),
    {
        let ps = split_char(s, pair_sep);
        let mut pairs: Vec<(String, String)> = Vec::new();
        let mut i: usize = 0;
        while i < ps.len()
            invariant
                i <= ps.len(),
                str_views(ps@) == crate::text::pieces(s@, pair_sep),
                pairs_view(pairs@) == kv_entries(
                    str_views(ps@).take(i as int),
                    kv_sep,
                ),
            decreases ps.len() - i,
        {
            let ghost before = pairs@;
            let piece = trim(ps[i]);
            proof {
                assert(str_views(ps@).take(i + 1).drop_last() =~= str_views(ps@).take(i as int));
                assert(str_views(ps@).take(i + 1).last() == ps@[i as int]@);
            }
            if piece.unicode_len() != 0 {
                match split_once(piece, kv_sep) {
                    Some((k, v)) => {
                        pairs.push((String::from_str(trim(k)), String::from_str(trim(v))));
                        proof {
                            assert(pairs_view(pairs@)
                                =~= pairs_view(before).push(
                                (trimmed(k@), trimmed(v@)),
                            ));
                        }
                    },
                    None => {},
                }
            }
            i += 1;
        }
        assert(str_views(ps@).take(ps.len() as int) =~= str_views(ps@));
        Features { pairs }
    }
}

} // verus!

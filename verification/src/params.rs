use vstd::prelude::*;
use vstd::string::StrSliceExecFns;

verus! {

/// The captured path parameters of one matched route: an association from
/// parameter name to the path segment that was captured for it.
///
/// The pairs are kept in capture order; a later addition for the same name
/// overrides an earlier one, which is exactly `Map::insert` on the view.
#[derive(Debug)]
pub struct Params {
    pub pairs: Vec<(String, String)>,
}

/// The mapping described by a sequence of name-value pairs, later pairs
/// overriding earlier ones.
pub open spec fn pairs_view(s: Seq<(String, String)>) -> Map<Seq<char>, Seq<char>>
    decreases s.len(),
{
    if s.len() == 0 {
        Map::empty()
    } else {
        pairs_view(s.drop_last()).insert(s.last().0@, s.last().1@)
    }
}

impl View for Params {
    type V = Map<Seq<char>, Seq<char>>;

    open spec fn view(&self) -> Map<Seq<char>, Seq<char>> {
        pairs_view(self.pairs@)
    }
}

/// Lookup in `pairs_view(s)` is the value of the last pair whose name
/// matches, so a backwards scan of a prefix answers for the whole prefix.
proof fn lemma_pairs_view_take(s: Seq<(String, String)>, k: Seq<char>, i: int)
    requires
        0 <= i <= s.len(),
        forall|j: int| i <= j < s.len() ==> #[trigger] s[j].0@ != k,
    ensures
        pairs_view(s).contains_key(k) == pairs_view(s.take(i)).contains_key(k),
        pairs_view(s).contains_key(k) ==> pairs_view(s)[k] == pairs_view(s.take(i))[k],
    decreases s.len() - i,
{
    if i == s.len() {
        assert(s.take(i) == s);
    } else {
        lemma_pairs_view_take(s, k, i + 1);
        assert(s.take(i + 1).drop_last() == s.take(i));
        assert(s.take(i + 1).last() == s[i]);
    }
}

impl Params {
    /// A parameter table holding exactly the given pairs.
    pub fn new(pairs: Vec<(String, String)>) -> (r: Self)
        ensures
            r@ == pairs_view(pairs@),
    {
        Params { pairs }
    }

    /// The captured value for `key`, if one was captured.
    pub fn get_params(&self, key: &str) -> (r: Option<&String>)
        ensures
            match r {
                Some(v) => self@.contains_key(key@) && v@ == self@[key@],
                None => !self@.contains_key(key@),
            },
    {
        let mut i: usize = self.pairs.len();
        while i > 0
            invariant
                i <= self.pairs.len(),
                forall|j: int| i <= j < self.pairs@.len() ==> #[trigger] self.pairs@[j].0@ != key@,
            decreases i,
        {
            i = i - 1;
            let pair = &self.pairs[i];
            if str_eq(pair.0.as_str(), key) {
                proof {
                    lemma_pairs_view_take(self.pairs@, key@, i + 1);
                    assert(self.pairs@.take(i + 1).last() == self.pairs@[i as int]);
                    assert(self.pairs@.take(i + 1).drop_last() == self.pairs@.take(i as int));
                }
                return Some(&pair.1);
            }
        }
        proof {
            lemma_pairs_view_take(self.pairs@, key@, 0);
            assert(self.pairs@.take(0) == Seq::<(String, String)>::empty());
        }
        None
    }

    /// Record a capture; a previous capture under the same name is overridden.
    pub fn add_params(&mut self, key: String, val: String)
        ensures
            final(self)@ == old(self)@.insert(key@, val@),
    {
        let ghost before = self.pairs@;
        self.pairs.push((key, val));
        proof {
            assert(self.pairs@.drop_last() == before);
        }
    }
}

/// Character-for-character equality of two string slices.
pub fn str_eq(a: &str, b: &str) -> (r: bool)
    ensures
        r == (a@ == b@),
{
    let alen = a.unicode_len();
    let blen = b.unicode_len();
    if alen != blen {
        return false;
    }
    let mut i: usize = 0;
    while i < alen
        invariant
            alen == a@.len(),
            blen == b@.len(),
            alen == blen,
            i <= alen,
            forall|j: int| 0 <= j < i ==> a@[j] == b@[j],
        decreases alen - i,
    {
        if a.get_char(i) != b.get_char(i) {
            return false;
        }
        i = i + 1;
    }
    proof {
        assert(a@ =~= b@);
    }
    true
}

} // verus!

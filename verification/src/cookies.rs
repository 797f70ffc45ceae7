use vstd::prelude::*;
use vstd::string::StrSliceExecFns;

verus! {

/// Whether a cookie-pair separator (`"; "`) starts at position `k`.
pub open spec fn is_sep_at(s: Seq<char>, k: int) -> bool {
    0 <= k && k + 1 < s.len() && s[k] == ';' && s[k + 1] == ' '
}

/// The position of the first separator at or after `i`, or `s.len()`.
pub open spec fn next_sep(s: Seq<char>, i: int) -> int
    decreases s.len() - i,
{
    if i >= s.len() {
        s.len() as int
    } else if is_sep_at(s, i) {
        i
    } else {
        next_sep(s, i + 1)
    }
}

proof fn lemma_next_sep_ge(s: Seq<char>, i: int)
    requires
        i <= s.len(),
    ensures
        i <= next_sep(s, i) <= s.len(),
        next_sep(s, i) < s.len() ==> is_sep_at(s, next_sep(s, i)),
    decreases s.len() - i,
{
    if i < s.len() && !is_sep_at(s, i) {
        lemma_next_sep_ge(s, i + 1);
    }
}

proof fn lemma_next_sep_exact(s: Seq<char>, a: int, b: int)
    requires
        0 <= a <= b <= s.len(),
        forall|k: int| a <= k < b ==> !is_sep_at(s, k),
        b == s.len() || is_sep_at(s, b),
    ensures
        next_sep(s, a) == b,
    decreases b - a,
{
    if a < b {
        lemma_next_sep_exact(s, a + 1, b);
    }
}

/// The pieces of a cookie header from position `i` on, cut at every
/// `"; "`; the pieces themselves keep any other spacing, and the list is
/// never empty — an empty header is one empty piece.
pub open spec fn split_parts_from(s: Seq<char>, i: int) -> Seq<Seq<char>>
    decreases s.len() - i,
    via split_parts_from_decreases
{
    if i < 0 || i > s.len() {
        Seq::empty()
    } else {
        let ns = next_sep(s, i);
        if ns >= s.len() {
            seq![s.subrange(i, s.len() as int)]
        } else {
            seq![s.subrange(i, ns)] + split_parts_from(s, ns + 2)
        }
    }
}

#[via_fn]
proof fn split_parts_from_decreases(s: Seq<char>, i: int) {
    if 0 <= i <= s.len() {
        lemma_next_sep_ge(s, i);
    }
}

/// The pieces of a whole cookie header.
pub open spec fn cookie_parts(s: Seq<char>) -> Seq<Seq<char>> {
    split_parts_from(s, 0)
}

/// What `cookie::Cookie::parse` reads out of one cookie pair: its name
/// and value, or nothing when the text is not a cookie pair. The outcome
/// depends on the text alone.
pub uninterp spec fn cookie_pair_of(s: Seq<char>) -> Option<(Seq<char>, Seq<char>)>;

/// Relies on `cookie::Cookie::parse` (the variant without
/// percent-decoding): one cookie pair read from text, `None` on a parse
/// error.
#[verifier::external_body]
fn parse_cookie_pair(part: &str) -> (r: Option<(String, String)>)
    ensures
        match r {
            Some(p) => cookie_pair_of(part@) == Some((p.0@, p.1@)),
            None => cookie_pair_of(part@) is None,
        },
{
    match cookie::Cookie::parse(part) {
        Ok(c) => Some((c.name().to_string(), c.value().to_string())),
        Err(_) => None,
    }
}

/// The name-value pairs of the pieces that parse, in order.
pub open spec fn pairs_of_parts(parts: Seq<Seq<char>>) -> Seq<(Seq<char>, Seq<char>)>
    decreases parts.len(),
{
    if parts.len() == 0 {
        Seq::empty()
    } else {
        pairs_of_parts(parts.drop_last()) + match cookie_pair_of(parts.last()) {
            Some(p) => seq![p],
            None => Seq::empty(),
        }
    }
}

/// The name-value pairs carried by a whole cookie header.
pub open spec fn cookie_pairs_of(s: Seq<char>) -> Seq<(Seq<char>, Seq<char>)> {
    pairs_of_parts(cookie_parts(s))
}

/// The views of a vector of name-value pairs.
pub open spec fn pairs_seq_view(v: Seq<(String, String)>) -> Seq<(Seq<char>, Seq<char>)>
    decreases v.len(),
{
    if v.len() == 0 {
        Seq::empty()
    } else {
        pairs_seq_view(v.drop_last()).push((v.last().0@, v.last().1@))
    }
}

/// Split a cookie header at every `"; "`.
fn split_cookie_parts(header: &str) -> (r: Vec<String>)
    ensures
        r.deep_view() == cookie_parts(header@),
{
    let len = header.unicode_len();
    let mut result: Vec<String> = Vec::new();
    let mut start: usize = 0;
    let mut i: usize = 0;
    while i < len
        invariant
            len == header@.len(),
            start <= i <= len,
            forall|k: int| start <= k < i ==> !is_sep_at(header@, k),
            result.deep_view() + split_parts_from(header@, start as int) =~= cookie_parts(
                header@,
            ),
        decreases len - i,
    {
        if header.get_char(i) == ';' && i + 1 < len && header.get_char(i + 1) == ' ' {
            proof {
                lemma_next_sep_exact(header@, start as int, i as int);
                assert(split_parts_from(header@, start as int) == seq![
                    header@.subrange(start as int, i as int),
                ] + split_parts_from(header@, i as int + 2));
            }
            let ghost before = result.deep_view();
            let part = header.substring_char(start, i).to_owned();
            result.push(part);
            proof {
                assert(result.deep_view() =~= before.push(part@));
            }
            start = i + 2;
            i = i + 2;
        } else {
            proof {
                assert(!is_sep_at(header@, i as int));
            }
            i = i + 1;
        }
    }
    proof {
        lemma_next_sep_exact(header@, start as int, len as int);
        assert(split_parts_from(header@, start as int) == seq![
            header@.subrange(start as int, len as int),
        ]);
    }
    let ghost before = result.deep_view();
    let part = header.substring_char(start, len).to_owned();
    result.push(part);
    proof {
        assert(result.deep_view() =~= before.push(part@));
        assert(result.deep_view() =~= cookie_parts(header@));
    }
    result
}

/// Reads the request's cookie header into name-value pairs, piece by
/// piece; a host middleware attaches the result to the request context.
#[derive(Default, Debug)]
pub struct CookieParser {}

impl CookieParser {
    pub fn new() -> (r: Self) {
        CookieParser {  }
    }

    /// The name-value pairs carried by `header`: the header is cut at
    /// every `"; "`, and every piece that parses as a cookie pair
    /// contributes its name and value, in order.
    pub fn parse_header(&self, header: &str) -> (r: Vec<(String, String)>)
        ensures
            pairs_seq_view(r@) == cookie_pairs_of(header@),
    {
        let parts = split_cookie_parts(header);
        let n = parts.len();
        let mut out: Vec<(String, String)> = Vec::new();
        let mut i: usize = 0;
        while i < n
            invariant
                n == parts.len(),
                i <= n,
                parts.deep_view().len() == n,
                forall|j: int| 0 <= j < n ==> parts.deep_view()[j] == parts@[j]@,
                parts.deep_view() == cookie_parts(header@),
                pairs_seq_view(out@) =~= pairs_of_parts(parts.deep_view().take(i as int)),
            decreases n - i,
        {
            let ghost before = out@;
            match parse_cookie_pair(parts[i].as_str()) {
                Some(p) => {
                    out.push(p);
                    proof {
                        assert(out@.drop_last() =~= before);
                    }
                },
                None => {},
            }
            proof {
                let t = parts.deep_view().take(i as int + 1);
                assert(t.drop_last() =~= parts.deep_view().take(i as int));
                assert(t.last() == parts.deep_view()[i as int]);
                assert(pairs_seq_view(out@) =~= pairs_of_parts(t));
            }
            i = i + 1;
        }
        proof {
            assert(parts.deep_view().take(n as int) =~= parts.deep_view());
        }
        out
    }
}

} // verus!

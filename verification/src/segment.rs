use vstd::prelude::*;
use vstd::string::StrSliceExecFns;

verus! {

/// The position of the first `'/'` in `s` at or after `i`, or `s.len()`
/// when there is none.
pub open spec fn next_slash(s: Seq<char>, i: int) -> int
    decreases s.len() - i,
{
    if i >= s.len() {
        s.len() as int
    } else if s[i] == '/' {
        i
    } else {
        next_slash(s, i + 1)
    }
}

pub proof fn lemma_next_slash_ge(s: Seq<char>, i: int)
    requires
        i <= s.len(),
    ensures
        i <= next_slash(s, i) <= s.len(),
    decreases s.len() - i,
{
    if i < s.len() && s[i] != '/' {
        lemma_next_slash_ge(s, i + 1);
    }
}

/// When `[a, b)` is slash-free and `b` sits on a slash or at the end,
/// `b` is exactly the next slash position from `a`.
pub proof fn lemma_next_slash_exact(s: Seq<char>, a: int, b: int)
    requires
        0 <= a <= b <= s.len(),
        forall|k: int| a <= k < b ==> s[k] != '/',
        b == s.len() || s[b] == '/',
    ensures
        next_slash(s, a) == b,
    decreases b - a,
{
    if a < b {
        lemma_next_slash_exact(s, a + 1, b);
    }
}

/// The non-empty `'/'`-separated segments of `s`, read from position `i`
/// on. Empty segments (leading, trailing or repeated slashes) vanish.
pub open spec fn split_from(s: Seq<char>, i: int) -> Seq<Seq<char>>
    decreases s.len() - i,
    via split_from_decreases
{
    if i < 0 || i >= s.len() {
        Seq::empty()
    } else if s[i] == '/' {
        split_from(s, i + 1)
    } else {
        seq![s.subrange(i, next_slash(s, i + 1))] + split_from(s, next_slash(s, i + 1))
    }
}

#[via_fn]
proof fn split_from_decreases(s: Seq<char>, i: int) {
    if 0 <= i < s.len() && s[i] != '/' {
        lemma_next_slash_ge(s, i + 1);
    }
}

/// The non-empty `'/'`-separated segments of a whole path.
pub open spec fn split_segments(s: Seq<char>) -> Seq<Seq<char>> {
    split_from(s, 0)
}

/// Split a path into its non-empty segments, dropping every empty piece
/// that leading, trailing or repeated slashes would produce.
pub fn split_path(path: &str) -> (r: Vec<String>)
    ensures
        r.deep_view() == split_segments(path@),
{
    let len = path.unicode_len();
    let mut result: Vec<String> = Vec::new();
    let mut start: usize = 0;
    let mut i: usize = 0;
    while i < len
        invariant
            len == path@.len(),
            start <= i <= len,
            forall|k: int| start <= k < i ==> path@[k] != '/',
            result.deep_view() + split_from(path@, start as int) =~= split_segments(path@),
        decreases len - i,
    {
        if path.get_char(i) == '/' {
            if start < i {
                proof {
                    lemma_next_slash_exact(path@, start as int + 1, i as int);
                    assert(split_from(path@, start as int) == seq![
                        path@.subrange(start as int, i as int),
                    ] + split_from(path@, i as int));
                }
                let ghost before = result.deep_view();
                let seg = path.substring_char(start, i).to_owned();
                result.push(seg);
                proof {
                    assert(result.deep_view() =~= before.push(seg@));
                    assert(before.push(seg@) + split_from(path@, i as int + 1) =~= before + (seq![
                        path@.subrange(start as int, i as int),
                    ] + split_from(path@, i as int + 1)));
                    assert(split_from(path@, i as int) == split_from(path@, i as int + 1));
                }
            }
            start = i + 1;
        }
        i = i + 1;
    }
    if start < len {
        proof {
            lemma_next_slash_exact(path@, start as int + 1, len as int);
            assert(split_from(path@, start as int) == seq![
                path@.subrange(start as int, len as int),
            ] + split_from(path@, len as int));
            assert(split_from(path@, len as int) =~= Seq::<Seq<char>>::empty());
        }
        let ghost before = result.deep_view();
        let seg = path.substring_char(start, len).to_owned();
        result.push(seg);
        proof {
            assert(result.deep_view() =~= before.push(seg@));
            assert(before.push(seg@) =~= before + (seq![path@.subrange(start as int, len as int)]
                + Seq::<Seq<char>>::empty()));
        }
    } else {
        proof {
            assert(split_from(path@, start as int) =~= Seq::<Seq<char>>::empty());
            assert(result.deep_view() + Seq::<Seq<char>>::empty() =~= result.deep_view());
        }
    }
    result
}

/// The length of the longest common prefix of `a` and `b`, counted from
/// position `i` with the first `i` characters taken as agreeing.
pub open spec fn cpl_from(a: Seq<char>, b: Seq<char>, i: int) -> int
    decreases a.len() - i,
{
    if i < 0 || i >= a.len() || i >= b.len() {
        i
    } else if a[i] != b[i] {
        i
    } else {
        cpl_from(a, b, i + 1)
    }
}

/// The length of the longest common prefix of `a` and `b`, counted in
/// characters, never in storage units.
pub open spec fn common_prefix(a: Seq<char>, b: Seq<char>) -> int {
    cpl_from(a, b, 0)
}

pub proof fn lemma_cpl_exact(a: Seq<char>, b: Seq<char>, i: int)
    requires
        0 <= i <= a.len(),
        i <= b.len(),
        forall|k: int| 0 <= k < i ==> a[k] == b[k],
        i == a.len() || i == b.len() || a[i] != b[i],
    ensures
        common_prefix(a, b) == i,
{
    lemma_cpl_from_exact(a, b, 0, i);
}

proof fn lemma_cpl_from_exact(a: Seq<char>, b: Seq<char>, j: int, i: int)
    requires
        0 <= j <= i <= a.len(),
        i <= b.len(),
        forall|k: int| j <= k < i ==> a[k] == b[k],
        i == a.len() || i == b.len() || a[i] != b[i],
    ensures
        cpl_from(a, b, j) == i,
    decreases i - j,
{
    if j < i {
        lemma_cpl_from_exact(a, b, j + 1, i);
    }
}

/// The basic facts about a common prefix: it is no longer than either
/// string, the two agree on it, and they differ right after it when both
/// go on.
pub proof fn lemma_common_prefix_props(a: Seq<char>, b: Seq<char>)
    ensures
        0 <= common_prefix(a, b) <= a.len(),
        common_prefix(a, b) <= b.len(),
        forall|k: int| 0 <= k < common_prefix(a, b) ==> a[k] == b[k],
        common_prefix(a, b) < a.len() && common_prefix(a, b) < b.len() ==> a[common_prefix(a, b)]
            != b[common_prefix(a, b)],
{
    lemma_cpl_from_props(a, b, 0);
}

proof fn lemma_cpl_from_props(a: Seq<char>, b: Seq<char>, i: int)
    requires
        0 <= i <= a.len(),
        i <= b.len(),
    ensures
        i <= cpl_from(a, b, i) <= a.len(),
        cpl_from(a, b, i) <= b.len(),
        forall|k: int| i <= k < cpl_from(a, b, i) ==> a[k] == b[k],
        cpl_from(a, b, i) < a.len() && cpl_from(a, b, i) < b.len() ==> a[cpl_from(a, b, i)]
            != b[cpl_from(a, b, i)],
    decreases a.len() - i,
{
    if i < a.len() && i < b.len() && a[i] == b[i] {
        lemma_cpl_from_props(a, b, i + 1);
    }
}

/// The number of leading characters on which `a` and `b` agree.
pub fn common_prefix_len(a: &str, b: &str) -> (r: usize)
    ensures
        r == common_prefix(a@, b@),
{
    let alen = a.unicode_len();
    let blen = b.unicode_len();
    let m = if alen < blen {
        alen
    } else {
        blen
    };
    let mut i: usize = 0;
    while i < m
        invariant
            alen == a@.len(),
            blen == b@.len(),
            m == if alen < blen {
                alen
            } else {
                blen
            },
            i <= m,
            forall|k: int| 0 <= k < i ==> a@[k] == b@[k],
        decreases m - i,
    {
        if a.get_char(i) != b.get_char(i) {
            proof {
                lemma_cpl_exact(a@, b@, i as int);
            }
            return i;
        }
        i = i + 1;
    }
    proof {
        lemma_cpl_exact(a@, b@, m as int);
    }
    m
}

/// Whether `k` names a parameter capture: a segment starting with `':'`.
pub open spec fn is_param_key(k: Seq<char>) -> bool {
    k.len() > 0 && k[0] == ':'
}

/// Whether `k` is the wildcard segment, exactly `"*"`.
pub open spec fn is_wild_key(k: Seq<char>) -> bool {
    k == seq!['*']
}

pub fn is_param_str(s: &str) -> (r: bool)
    ensures
        r == is_param_key(s@),
{
    s.unicode_len() > 0 && s.get_char(0) == ':'
}

pub fn is_wild_str(s: &str) -> (r: bool)
    ensures
        r == is_wild_key(s@),
{
    if s.unicode_len() == 1 && s.get_char(0) == '*' {
        proof {
            assert(s@ =~= seq!['*']);
        }
        true
    } else {
        proof {
            assert(s@ == seq!['*'] ==> s@.len() == 1 && s@[0] == '*');
        }
        false
    }
}

/// Whether every wildcard use in `segs` is legal: a segment containing
/// `'*'` must be exactly `"*"` and must be the final segment.
pub open spec fn wild_ok(segs: Seq<Seq<char>>) -> bool {
    forall|i: int|
        0 <= i < segs.len() && #[trigger] segs[i].contains('*') ==> segs[i] == seq!['*'] && i
            == segs.len() - 1
}

fn contains_star(s: &str) -> (r: bool)
    ensures
        r == s@.contains('*'),
{
    let len = s.unicode_len();
    let mut i: usize = 0;
    while i < len
        invariant
            len == s@.len(),
            i <= len,
            forall|k: int| 0 <= k < i ==> s@[k] != '*',
        decreases len - i,
    {
        if s.get_char(i) == '*' {
            return true;
        }
        i = i + 1;
    }
    false
}

/// Check every segment against the wildcard placement rules.
pub fn check_wildcards(segs: &Vec<String>) -> (r: bool)
    ensures
        r == wild_ok(segs.deep_view()),
{
    let n = segs.len();
    let mut i: usize = 0;
    while i < n
        invariant
            n == segs.len(),
            segs.deep_view().len() == n,
            forall|j: int| 0 <= j < n ==> segs.deep_view()[j] == segs@[j]@,
            i <= n,
            forall|j: int|
                0 <= j < i && #[trigger] segs.deep_view()[j].contains('*')
                    ==> segs.deep_view()[j] == seq!['*'] && j == n - 1,
        decreases n - i,
    {
        if contains_star(segs[i].as_str()) {
            if !is_wild_str(segs[i].as_str()) || i != n - 1 {
                proof {
                    assert(segs.deep_view()[i as int].contains('*'));
                    assert(!(segs.deep_view()[i as int] == seq!['*'] && i as int == n - 1));
                }
                return false;
            }
        }
        i = i + 1;
    }
    true
}

} // verus!

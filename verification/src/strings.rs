//! Small verified helpers over strings treated as sequences of characters:
//! suffix tests, slash scanning for path manipulation, and concatenation.
use vstd::prelude::*;
use vstd::string::*;

verus! {

/// Pushing one element onto a vector pushes its model onto the vector's
/// deep view.
pub proof fn lemma_push_deep_view<T: DeepView>(v1: Vec<T>, v2: Vec<T>, x: T)
    requires
        v2@ == v1@.push(x),
    ensures
        v2.deep_view() == v1.deep_view().push(x.deep_view()),
{
    assert forall|i: int| 0 <= i < v2.deep_view().len() implies v2.deep_view()[i]
        == v1.deep_view().push(x.deep_view())[i] by {
        if i < v1@.len() {
            assert(v2@[i] == v1@[i]);
        } else {
            assert(v2@[i] == x);
        }
    }
    assert(v2.deep_view() =~= v1.deep_view().push(x.deep_view()));
}

/// `s` ends with `suffix`.
pub open spec fn spec_ends_with(s: Seq<char>, suffix: Seq<char>) -> bool {
    s.len() >= suffix.len() && s.skip(s.len() - suffix.len()) == suffix
}

/// Index of the first `/` at or after position `j`, or `-1` if there is none.
pub open spec fn first_slash_from(s: Seq<char>, j: int) -> int
    decreases s.len() - j,
{
    if j < 0 || j >= s.len() {
        -1
    } else if s[j] == '/' {
        j
    } else {
        first_slash_from(s, j + 1)
    }
}

/// Index of the first `/` in `s`, or `-1` if there is none.
pub open spec fn spec_first_slash(s: Seq<char>) -> int {
    first_slash_from(s, 0)
}

/// Index of the last `/` at or before position `j`, or `-1` if there is none.
pub open spec fn last_slash_at(s: Seq<char>, j: int) -> int
    decreases j + 1,
{
    if j < 0 || j >= s.len() {
        -1
    } else if s[j] == '/' {
        j
    } else {
        last_slash_at(s, j - 1)
    }
}

/// Index of the last `/` in `s`, or `-1` if there is none.
pub open spec fn spec_last_slash(s: Seq<char>) -> int {
    last_slash_at(s, s.len() - 1)
}

/// Everything before the last `/`, or the empty sequence if there is none.
pub open spec fn spec_parent(s: Seq<char>) -> Seq<char> {
    if spec_last_slash(s) < 0 {
        Seq::empty()
    } else {
        s.take(spec_last_slash(s))
    }
}

/// Everything after the last `/`; the whole sequence if there is none.
pub open spec fn spec_basename(s: Seq<char>) -> Seq<char> {
    s.skip(spec_last_slash(s) + 1)
}

/// `s` with every trailing repetition of the non-empty `suffix` removed.
pub open spec fn spec_trim_suffix(s: Seq<char>, suffix: Seq<char>) -> Seq<char>
    decreases s.len(),
{
    if suffix.len() > 0 && spec_ends_with(s, suffix) {
        spec_trim_suffix(s.take(s.len() - suffix.len()), suffix)
    } else {
        s
    }
}

/// Where `first_slash_from` lands: either `-1` and no slash remains, or an
/// in-range index holding the first slash at or after `j`.
pub proof fn lemma_first_slash_from_props(s: Seq<char>, j: int)
    requires
        0 <= j,
    ensures
        first_slash_from(s, j) == -1 ==> forall|k: int| j <= k < s.len() ==> s[k] != '/',
        first_slash_from(s, j) >= 0 ==> j <= first_slash_from(s, j) < s.len() && s[first_slash_from(
            s,
            j,
        )] == '/' && forall|k: int| j <= k < first_slash_from(s, j) ==> s[k] != '/',
    decreases s.len() - j,
{
    if j < s.len() && s[j] != '/' {
        lemma_first_slash_from_props(s, j + 1);
    }
}

/// Where `last_slash_at` lands: either `-1` and no slash occurs up to `j`, or
/// an in-range index holding the last slash at or before `j`.
pub proof fn lemma_last_slash_at_props(s: Seq<char>, j: int)
    requires
        j < s.len(),
    ensures
        last_slash_at(s, j) == -1 ==> forall|k: int| 0 <= k <= j ==> s[k] != '/',
        last_slash_at(s, j) >= 0 ==> 0 <= last_slash_at(s, j) <= j && s[last_slash_at(s, j)] == '/'
            && forall|k: int| last_slash_at(s, j) < k <= j ==> s[k] != '/',
    decreases j + 1,
{
    if 0 <= j && s[j] != '/' {
        lemma_last_slash_at_props(s, j - 1);
    }
}

pub fn ends_with_str(s: &str, suffix: &str) -> (r: bool)
    ensures
        r == spec_ends_with(s@, suffix@),
{
    let n = s.unicode_len();
    let m = suffix.unicode_len();
    if m > n {
        return false;
    }
    let off = n - m;
    let mut j: usize = 0;
    while j < m
        invariant
            m <= n,
            n == s@.len(),
            m == suffix@.len(),
            off == n - m,
            j <= m,
            forall|k: int| 0 <= k < j ==> s@[off + k] == suffix@[k],
        decreases m - j,
    {
        if s.get_char(off + j) != suffix.get_char(j) {
            proof {
                if spec_ends_with(s@, suffix@) {
                    assert(s@.skip(off as int)[j as int] == suffix@[j as int]);
                    assert(s@.skip(off as int)[j as int] == s@[off + j]);
                }
            }
            return false;
        }
        j += 1;
    }
    proof {
        assert(s@.skip(off as int) =~= suffix@);
    }
    true
}

pub fn first_slash_index(s: &str) -> (r: Option<usize>)
    ensures
        match r {
            Some(i) => spec_first_slash(s@) == i,
            None => spec_first_slash(s@) == -1,
        },
{
    let n = s.unicode_len();
    let mut j: usize = 0;
    while j < n
        invariant
            n == s@.len(),
            j <= n,
            spec_first_slash(s@) == first_slash_from(s@, j as int),
        decreases n - j,
    {
        if s.get_char(j) == '/' {
            return Some(j);
        }
        j += 1;
    }
    None
}

pub fn last_slash_index(s: &str) -> (r: Option<usize>)
    ensures
        match r {
            Some(i) => spec_last_slash(s@) == i,
            None => spec_last_slash(s@) == -1,
        },
{
    let n = s.unicode_len();
    let mut i = n;
    while i > 0
        invariant
            n == s@.len(),
            i <= n,
            spec_last_slash(s@) == last_slash_at(s@, i as int - 1),
        decreases i,
    {
        i = i - 1;
        if s.get_char(i) == '/' {
            return Some(i);
        }
    }
    None
}

/// The parent directory of a path: everything before the last `/`, or the
/// empty string for a bare file name.
pub fn parent_of(s: &str) -> (r: String)
    ensures
        r@ == spec_parent(s@),
{
    proof {
        lemma_last_slash_at_props(s@, s@.len() - 1);
    }
    match last_slash_index(s) {
        None => String::new(),
        Some(i) => {
            let sub = s.substring_char(0, i);
            proof {
                assert(s@.subrange(0, i as int) =~= s@.take(i as int));
            }
            sub.to_owned()
        },
    }
}

/// The file name of a path: everything after the last `/`, or the whole
/// string when it holds no `/`.
pub fn basename_of(s: &str) -> (r: String)
    ensures
        r@ == spec_basename(s@),
{
    let n = s.unicode_len();
    proof {
        lemma_last_slash_at_props(s@, s@.len() - 1);
    }
    match last_slash_index(s) {
        None => {
            proof {
                assert(s@.skip(0) =~= s@);
            }
            s.to_owned()
        },
        Some(i) => {
            let sub = s.substring_char(i + 1, n);
            proof {
                assert(s@.subrange(i + 1, n as int) =~= s@.skip(i + 1));
            }
            sub.to_owned()
        },
    }
}

/// Removes every trailing repetition of the non-empty `suffix` from `s`.
pub fn trim_suffix(s: &str, suffix: &str) -> (r: String)
    ensures
        r@ == spec_trim_suffix(s@, suffix@),
{
    let mut cur: String = s.to_owned();
    let m = suffix.unicode_len();
    if m == 0 {
        return cur;
    }
    loop
        invariant
            m == suffix@.len(),
            m > 0,
            spec_trim_suffix(s@, suffix@) == spec_trim_suffix(cur@, suffix@),
        decreases cur@.len(),
    {
        let n = cur.as_str().unicode_len();
        if !ends_with_str(cur.as_str(), suffix) {
            return cur;
        }
        let shorter = cur.as_str().substring_char(0, n - m);
        proof {
            assert(cur@.subrange(0, n - m) =~= cur@.take(n - m));
        }
        cur = shorter.to_owned();
    }
}

/// `a` followed by `b`.
pub fn concat_str(a: &str, b: &str) -> (r: String)
    ensures
        r@ == a@ + b@,
{
    let mut r = a.to_owned();
    r.append(b);
    r
}

/// `dir` and `name` joined with a single `/`.
pub fn join_path(dir: &str, name: &str) -> (r: String)
    ensures
        r@ == dir@ + seq!['/'] + name@,
{
    let mut r = dir.to_owned();
    r.append("/");
    r.append(name);
    proof {
        reveal_strlit("/");
        assert("/"@ =~= seq!['/']);
    }
    r
}

} // verus!

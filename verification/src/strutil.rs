//! String helpers: equality of string slices and the right-split of
//! feature-dependency tokens.
//!
//! A token in a feature list either names a feature of the declaring package
//! (`"foo"`) or a feature of a direct dependency (`"dep/foo"`). The split is
//! on the *last* slash: `"a/b/c"` names feature `"c"` of dependency `"a/b"`.

use vstd::prelude::*;
use vstd::string::StrSliceExecFns;

verus! {

/// Relies on str's `PartialEq`: two string slices are equal exactly when
/// their character sequences are.
#[verifier::external_body]
pub fn str_eq(a: &str, b: &str) -> (r: bool)
    ensures
        r == (a@ == b@),
{
    a == b
}

/// The index of the last `'/'` in `s`, or `-1` if there is none.
pub open spec fn last_slash(s: Seq<char>) -> int
    decreases s.len(),
{
    if s.len() == 0 {
        -1
    } else if s.last() == '/' {
        s.len() - 1
    } else {
        last_slash(s.drop_last())
    }
}

/// `last_slash` finds the greatest slash position, or reports none.
pub proof fn lemma_last_slash(s: Seq<char>)
    ensures
        last_slash(s) >= -1,
        last_slash(s) == -1 ==> forall|i: int| 0 <= i < s.len() ==> (#[trigger] s[i]) != '/',
        last_slash(s) >= 0 ==> {
            &&& last_slash(s) < s.len()
            &&& s[last_slash(s)] == '/'
            &&& forall|i: int| last_slash(s) < i < s.len() ==> (#[trigger] s[i]) != '/'
        },
    decreases s.len(),
{
    if s.len() == 0 {
    } else if s.last() == '/' {
    } else {
        lemma_last_slash(s.drop_last());
        assert(forall|i: int| 0 <= i < s.len() - 1 ==> s[i] == s.drop_last()[i]);
    }
}

/// Splits a feature-dependency token on its last slash.
///
/// `"foo"` gives `(None, "foo")`; `"dep/foo"` gives `(Some("dep"), "foo")`;
/// `"a/b/c"` gives `(Some("a/b"), "c")`; `""` gives `(None, "")`.
pub fn split_feature_dep(token: &str) -> (r: (Option<String>, String))
    ensures
        (r.0 is Some) == (last_slash(token@) >= 0),
        r.0 matches Some(d) ==> d@ == token@.subrange(0, last_slash(token@)) && r.1@
            == token@.subrange(last_slash(token@) + 1, token@.len() as int),
        r.0 is None ==> r.1@ == token@,
{
    let n = token.unicode_len();
    let mut i: usize = 0;
    let mut last: usize = 0;
    let mut found = false;
    while i < n
        invariant
            n == token@.len(),
            i <= n,
            found ==> last < i && token@[last as int] == '/' && forall|j: int|
                last < j < i ==> (#[trigger] token@[j]) != '/',
            !found ==> forall|j: int| 0 <= j < i ==> (#[trigger] token@[j]) != '/',
        decreases n - i,
    {
        let c = token.get_char(i);
        if c == '/' {
            last = i;
            found = true;
        }
        i += 1;
    }
    proof {
        lemma_last_slash(token@);
        if found {
            assert(last_slash(token@) == last as int) by {
                if last_slash(token@) == -1 {
                    assert(token@[last as int] != '/');
                } else if last_slash(token@) < last as int {
                    assert(token@[last as int] != '/');
                } else if last_slash(token@) > last as int {
                    assert(token@[last_slash(token@)] != '/');
                }
            }
        } else {
            if last_slash(token@) >= 0 {
                assert(token@[last_slash(token@)] != '/');
            }
        }
    }
    if found {
        let dep = token.substring_char(0, last).to_owned();
        let feat = token.substring_char(last + 1, n).to_owned();
        (Some(dep), feat)
    } else {
        (None, token.to_owned())
    }
}

} // verus!

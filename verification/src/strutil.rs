//! Small verified string helpers, plus the one trusted helper this crate
//! needs for building strings character by character.

use vstd::prelude::*;

verus! {

/// Relies on `String::push` from std: appends one character at the end.
#[verifier::external_body]
pub fn push_char(s: &mut String, c: char)
    ensures
        final(s)@ == old(s)@.push(c),
{
    s.push(c);
}

/// Character-for-character equality of two string slices.
pub fn str_eq(a: &str, b: &str) -> (r: bool)
    ensures
        r == (a@ == b@),
{
    let alen = a.unicode_len();
    let blen = b.unicode_len();
    if alen != blen {
        assert(a@ != b@) by {
            assert(a@.len() != b@.len());
        }
        return false;
    }
    let mut i: usize = 0;
    while i < alen
        invariant
            alen == a@.len(),
            alen == b@.len(),
            0 <= i <= alen,
            forall|k: int| 0 <= k < i ==> a@[k] == b@[k],
        decreases alen - i,
    {
        if a.get_char(i) != b.get_char(i) {
            return false;
        }
        i += 1;
    }
    proof {
        assert(a@ =~= b@);
    }
    true
}

/// Does `s` end with the characters of `suffix`?
pub open spec fn spec_ends_with(s: Seq<char>, suffix: Seq<char>) -> bool {
    s.len() >= suffix.len() && s.subrange(s.len() - suffix.len(), s.len() as int) == suffix
}

pub fn str_ends_with(s: &str, suffix: &str) -> (r: bool)
    ensures
        r == spec_ends_with(s@, suffix@),
{
    let slen = s.unicode_len();
    let xlen = suffix.unicode_len();
    if slen < xlen {
        return false;
    }
    let mut i: usize = 0;
    while i < xlen
        invariant
            slen == s@.len(),
            xlen == suffix@.len(),
            xlen <= slen,
            0 <= i <= xlen,
            forall|k: int| 0 <= k < i ==> s@[slen - xlen + k] == suffix@[k],
        decreases xlen - i,
    {
        if s.get_char(slen - xlen + i) != suffix.get_char(i) {
            assert(s@.subrange(s@.len() - suffix@.len(), s@.len() as int)[i as int] != suffix@[i as int]);
            return false;
        }
        i += 1;
    }
    proof {
        assert(s@.subrange(s@.len() - suffix@.len(), s@.len() as int) =~= suffix@);
    }
    true
}

/// The segment of `s` after its last `/`, or all of `s` when it holds none;
/// the name a path refers to.
pub open spec fn spec_last_segment(s: Seq<char>) -> Seq<char>
    decreases s.len(),
{
    if s.len() == 0 {
        s
    } else if s[s.len() - 1] == '/' {
        spec_last_segment(s.drop_last())
    } else if exists|k: int| 0 <= k < s.len() && s[k] == '/' {
        let k = last_slash(s);
        s.subrange(k + 1, s.len() as int)
    } else {
        s
    }
}

/// Index of the last `/` in `s`.
pub open spec fn last_slash(s: Seq<char>) -> int
    decreases s.len(),
{
    if s.len() == 0 {
        -1
    } else if s[s.len() - 1] == '/' {
        s.len() - 1
    } else {
        last_slash(s.drop_last())
    }
}

pub proof fn lemma_last_slash(s: Seq<char>)
    ensures
        (exists|k: int| 0 <= k < s.len() && s[k] == '/') ==> {
            &&& 0 <= last_slash(s) < s.len()
            &&& s[last_slash(s)] == '/'
            &&& forall|k: int| last_slash(s) < k < s.len() ==> s[k] != '/'
        },
        !(exists|k: int| 0 <= k < s.len() && s[k] == '/') ==> last_slash(s) == -1,
    decreases s.len(),
{
    if s.len() == 0 {
    } else if s[s.len() - 1] == '/' {
    } else {
        lemma_last_slash(s.drop_last());
        if exists|k: int| 0 <= k < s.len() && s[k] == '/' {
            let k0 = choose|k: int| 0 <= k < s.len() && s[k] == '/';
            assert(k0 < s.len() - 1);
            assert(s.drop_last()[k0] == '/');
            let ls = last_slash(s.drop_last());
            assert(s[ls] == s.drop_last()[ls]);
            assert(forall|k: int| ls < k < s.len() - 1 ==> s[k] == s.drop_last()[k]);
        }
    }
}

/// The name a path string refers to: everything after the last `/`, with any
/// trailing slashes first stripped.
pub fn last_segment(s: &str) -> (r: String)
    ensures
        r@ == spec_last_segment(s@),
{
    let len = s.unicode_len();
    let mut end: usize = len;
    proof {
        assert(s@.subrange(0, len as int) =~= s@);
    }
    while end > 0 && s.get_char(end - 1) == '/'
        invariant
            len == s@.len(),
            0 <= end <= len,
            forall|k: int| end <= k < len ==> s@[k] == '/',
            spec_last_segment(s@) == spec_last_segment(s@.subrange(0, end as int)),
        decreases end,
    {
        proof {
            assert(s@.subrange(0, end as int).drop_last() =~= s@.subrange(0, end - 1));
        }
        end -= 1;
    }
    let ghost t = s@.subrange(0, end as int);
    proof {
        assert(end > 0 ==> t[t.len() - 1] != '/');
    }
    let mut start: usize = end;
    while start > 0 && s.get_char(start - 1) != '/'
        invariant
            len == s@.len(),
            0 <= start <= end <= len,
            forall|k: int| start <= k < end ==> s@[k] != '/',
        decreases start,
    {
        start -= 1;
    }
    let mut r = String::new();
    let mut i: usize = start;
    while i < end
        invariant
            len == s@.len(),
            0 <= start <= i <= end <= len,
            r@ == s@.subrange(start as int, i as int),
        decreases end - i,
    {
        let c = s.get_char(i);
        push_char(&mut r, c);
        proof {
            assert(s@.subrange(start as int, i + 1) =~= s@.subrange(start as int, i as int).push(
                s@[i as int],
            ));
        }
        i += 1;
    }
    proof {
        lemma_last_slash(t);
        if start > 0 {
            assert(t[start - 1] == '/');
            assert(exists|k: int| 0 <= k < t.len() && t[k] == '/');
            assert(last_slash(t) == start - 1) by {
                assert(t[start - 1] == '/');
                assert(forall|k: int| start <= k < t.len() ==> t[k] != '/');
            }
            assert(spec_last_segment(t) =~= s@.subrange(start as int, end as int)) by {
                lemma_spec_last_segment_no_trailing(t);
            }
        } else {
            if exists|k: int| 0 <= k < t.len() && t[k] == '/' {
                let k0 = choose|k: int| 0 <= k < t.len() && t[k] == '/';
                assert(t[k0] != '/');
            }
            lemma_spec_last_segment_no_trailing(t);
            assert(spec_last_segment(t) =~= s@.subrange(0, end as int));
        }
        assert(r@ =~= spec_last_segment(s@));
    }
    r
}

/// On a sequence with no trailing slash, `spec_last_segment` needs no
/// stripping step.
proof fn lemma_spec_last_segment_no_trailing(s: Seq<char>)
    requires
        s.len() > 0 ==> s[s.len() - 1] != '/',
    ensures
        spec_last_segment(s) == if exists|k: int| 0 <= k < s.len() && s[k] == '/' {
            s.subrange(last_slash(s) + 1, s.len() as int)
        } else {
            s
        },
{
}


/// An owned copy of a string slice.
pub fn copy_str(s: &str) -> (r: String)
    ensures
        r@ == s@,
{
    s.to_owned()
}

} // verus!

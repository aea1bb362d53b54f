//! Release checks: whether the latest published tag names another version
//! than the running one.
use vstd::prelude::*;

verus! {

/// `s` without its leading `v` characters.
pub open spec fn strip_v(s: Seq<char>) -> Seq<char>
    decreases s.len(),
{
    if s.len() > 0 && s[0] == 'v' {
        strip_v(s.drop_first())
    } else {
        s
    }
}

/// The version to announce for the latest release tag: the tag without its
/// leading `v`s, when that differs from the running version.
pub fn newer_release(tag: &str, current: &str) -> (r: Option<String>)
    ensures
        strip_v(tag@) == current@ ==> r is None,
        strip_v(tag@) != current@ ==> (r matches Some(v) && v@ == strip_v(tag@)),
{
    let n = tag.unicode_len();
    let mut i: usize = 0;
    assert(tag@.subrange(0, n as int) =~= tag@);
    while i < n && tag.get_char(i) == 'v'
        invariant
            n == tag@.len(),
            i <= n,
            strip_v(tag@) == strip_v(tag@.subrange(i as int, n as int)),
        decreases n - i,
    {
        assert(tag@.subrange(i as int, n as int).drop_first() =~= tag@.subrange(i + 1, n as int));
        i = i + 1;
    }
    let rest = tag.substring_char(i, n);
    if crate::codec::str_eq(rest, current) {
        None
    } else {
        Some(rest.to_owned())
    }
}

} // verus!

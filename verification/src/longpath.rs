use vstd::prelude::*;
use crate::text::{push_char, str_chars};

verus! {

/// The Win32 prefix of a long path, `\\?\`.
pub open spec fn win32_long_prefix() -> Seq<char> {
    seq!['\\', '\\', '?', '\\']
}

/// The NT object-manager prefix, `\??\`.
pub open spec fn nt_object_prefix() -> Seq<char> {
    seq!['\\', '?', '?', '\\']
}

/// `s` with each `\\?\`, found from left to right without overlaps, replaced
/// by `\??\` (what `str::replace` gives for these two patterns).
pub open spec fn nt_path_text(s: Seq<char>) -> Seq<char>
    decreases s.len(),
{
    if s.len() == 0 {
        Seq::empty()
    } else if s.len() >= 4 && s.take(4) == win32_long_prefix() {
        nt_object_prefix() + nt_path_text(s.skip(4))
    } else {
        seq![s[0]] + nt_path_text(s.skip(1))
    }
}

/// The path handed to the NT layer when changing directory by the Win32 API
/// failed: every `\\?\` in it becomes `\??\`.
pub fn nt_long_path(path: &str) -> (r: String)
    ensures
        r@ == nt_path_text(path@),
{
    let v = str_chars(path);
    let mut out = String::new();
    let mut i: usize = 0;
    assert(v@.skip(0) =~= v@);
    assert(out@ + nt_path_text(v@) =~= nt_path_text(v@));
    while i < v.len()
        invariant
            i <= v@.len(),
            v@ == path@,
            out@ + nt_path_text(v@.skip(i as int)) == nt_path_text(v@),
        decreases v@.len() - i,
    {
        let ghost rest = v@.skip(i as int);
        if v.len() - i >= 4 && v[i] == '\\' && v[i + 1] == '\\' && v[i + 2] == '?' && v[i + 3] == '\\' {
            assert(rest.take(4) =~= win32_long_prefix());
            assert(rest.skip(4) =~= v@.skip(i + 4));
            push_char(&mut out, '\\');
            push_char(&mut out, '?');
            push_char(&mut out, '?');
            push_char(&mut out, '\\');
            i = i + 4;
        } else {
            assert(rest.len() >= 4 ==> rest.take(4) != win32_long_prefix()) by {
                if rest.len() >= 4 && rest.take(4) == win32_long_prefix() {
                    assert(rest.take(4)[0] == v@[i as int]);
                    assert(rest.take(4)[1] == v@[i + 1]);
                    assert(rest.take(4)[2] == v@[i + 2]);
                    assert(rest.take(4)[3] == v@[i + 3]);
                }
            }
            assert(rest.skip(1) =~= v@.skip(i + 1));
            push_char(&mut out, v[i]);
            i = i + 1;
        }
    }
    assert(v@.skip(i as int) =~= Seq::<char>::empty());
    assert(out@ + Seq::<char>::empty() =~= out@);
    out
}

} // verus!

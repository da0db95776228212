use vstd::prelude::*;
use crate::path::starts_with;
use crate::text::{push_char, str_chars};

verus! {

/// The characters with Unicode's White_Space property (what `char::is_whitespace` tests).
pub open spec fn is_unicode_whitespace(c: char) -> bool {
    ('\u{9}' <= c && c <= '\u{d}') || c == ' ' || c == '\u{85}' || c == '\u{a0}' || c == '\u{1680}'
        || ('\u{2000}' <= c && c <= '\u{200a}') || c == '\u{2028}' || c == '\u{2029}' || c
        == '\u{202f}' || c == '\u{205f}' || c == '\u{3000}'
}

/// `s` without its leading whitespace.
pub open spec fn trim_start(s: Seq<char>) -> Seq<char>
    decreases s.len(),
{
    if s.len() > 0 && is_unicode_whitespace(s[0]) {
        trim_start(s.drop_first())
    } else {
        s
    }
}

/// What `/showIncludes` filtering keeps of a compiler output line: the text
/// after `prefix` with leading whitespace removed, or nothing when the line
/// does not start with `prefix`.
pub open spec fn show_include_text(line: Seq<char>, prefix: Seq<char>) -> Seq<char> {
    if starts_with(line, prefix) {
        trim_start(line.skip(prefix.len() as int))
    } else {
        seq![]
    }
}

fn is_whitespace_char(c: char) -> (r: bool)
    ensures
        r == is_unicode_whitespace(c),
{
    ('\u{9}' <= c && c <= '\u{d}') || c == ' ' || c == '\u{85}' || c == '\u{a0}' || c == '\u{1680}'
        || ('\u{2000}' <= c && c <= '\u{200a}') || c == '\u{2028}' || c == '\u{2029}' || c
        == '\u{202f}' || c == '\u{205f}' || c == '\u{3000}'
}

/// The included path that a `/showIncludes` line names: the line's text after
/// `prefix`, with leading whitespace removed; empty when the line does not
/// start with `prefix`.
#[allow(non_snake_case)]
pub fn rs_clparser__filter_show_includes(path: &str, prefix: &str) -> (r: String)
    ensures
        r@ == show_include_text(path@, prefix@),
        r@.len() > 0 ==> prefix@.len() <= path@.len() && path@.take(prefix@.len() as int) == prefix@,
{
    let line = str_chars(path);
    let pre = str_chars(prefix);
    let mut out = String::new();
    if pre.len() > line.len() {
        return out;
    }
    let mut i: usize = 0;
    while i < pre.len()
        invariant
            i <= pre@.len() <= line@.len(),
            line@ == path@,
            pre@ == prefix@,
            out@ == Seq::<char>::empty(),
            forall|j: int| 0 <= j < i ==> line@[j] == pre@[j],
        decreases pre@.len() - i,
    {
        if line[i] != pre[i] {
            assert(line@.take(pre@.len() as int)[i as int] != pre@[i as int]);
            return out;
        }
        i = i + 1;
    }
    assert(line@.take(pre@.len() as int) =~= pre@);
    let ghost rest = line@.skip(pre@.len() as int);
    while i < line.len() && is_whitespace_char(line[i])
        invariant
            pre@.len() <= i <= line@.len(),
            trim_start(rest) == trim_start(line@.skip(i as int)),
        decreases line@.len() - i,
    {
        assert(line@.skip(i as int).drop_first() =~= line@.skip(i + 1));
        i = i + 1;
    }
    assert(i < line@.len() ==> line@.skip(i as int)[0] == line@[i as int]);
    assert(trim_start(line@.skip(i as int)) == line@.skip(i as int));
    while i < line.len()
        invariant
            i <= line@.len(),
            out@ + line@.skip(i as int) == trim_start(rest),
        decreases line@.len() - i,
    {
        let ghost before = out@;
        push_char(&mut out, line[i]);
        assert(before + line@.skip(i as int) =~= out@ + line@.skip(i + 1));
        i = i + 1;
    }
    assert(out@ + line@.skip(i as int) =~= out@);
    out
}

/// Trimming removes a run of leading whitespace and nothing else.
proof fn lemma_trim_start_shape(s: Seq<char>)
    ensures
        trim_start(s).len() <= s.len(),
        trim_start(s) == s.skip(s.len() - trim_start(s).len()),
        forall|j: int| 0 <= j < s.len() - trim_start(s).len() ==> is_unicode_whitespace(#[trigger] s[j]),
        trim_start(s).len() > 0 ==> !is_unicode_whitespace(trim_start(s)[0]),
    decreases s.len(),
{
    if s.len() > 0 && is_unicode_whitespace(s[0]) {
        let t = s.drop_first();
        lemma_trim_start_shape(t);
        assert(t.skip(t.len() - trim_start(t).len()) =~= s.skip(s.len() - trim_start(t).len()));
        assert forall|j: int| 0 <= j < s.len() - trim_start(s).len() implies is_unicode_whitespace(
            #[trigger] s[j],
        ) by {
            if j > 0 {
                assert(s[j] == t[j - 1]);
            }
        }
    } else {
        assert(s.skip(0) =~= s);
    }
}

/// A `/showIncludes` line names a path only when it starts with the prefix:
/// a line that does not start with it gives nothing, and one that does gives
/// the rest of the line from its first character after the prefix that is not
/// whitespace (every character skipped over is whitespace).
pub proof fn law_show_include_after_prefix(line: Seq<char>, prefix: Seq<char>)
    ensures
        !(prefix.len() <= line.len() && line.take(prefix.len() as int) == prefix)
            ==> show_include_text(line, prefix).len() == 0,
        prefix.len() <= line.len() && line.take(prefix.len() as int) == prefix ==> {
            let r = show_include_text(line, prefix);
            let k = line.len() - r.len();
            &&& prefix.len() <= k <= line.len()
            &&& r == line.skip(k)
            &&& forall|j: int| prefix.len() <= j < k ==> is_unicode_whitespace(#[trigger] line[j])
            &&& r.len() > 0 ==> !is_unicode_whitespace(r[0])
        },
{
    if prefix.len() <= line.len() && line.take(prefix.len() as int) == prefix {
        let rest = line.skip(prefix.len() as int);
        lemma_trim_start_shape(rest);
        let r = trim_start(rest);
        assert(show_include_text(line, prefix) == r);
        let k = line.len() - r.len();
        assert(rest.skip(rest.len() - r.len()) =~= line.skip(k));
        assert forall|j: int| prefix.len() <= j < k implies is_unicode_whitespace(#[trigger] line[j]) by {
            assert(rest[j - prefix.len()] == line[j]);
        }
    }
}

} // verus!

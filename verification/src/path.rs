use vstd::prelude::*;
use crate::text::{decimal_chars, decimal_string, push_char, str_chars};

verus! {

// ---------------------------------------------------------------------------
// The model: a path as a sequence of characters, split into segments.
// ---------------------------------------------------------------------------

/// `/` and `\` both separate path segments.
pub open spec fn is_path_sep(c: char) -> bool {
    c == '/' || c == '\\'
}

/// The non-empty runs of non-separator characters of `s`, in order, where
/// `cur` holds the characters of the segment read so far.
pub open spec fn segments_from(s: Seq<char>, cur: Seq<char>) -> Seq<Seq<char>>
    decreases s.len(),
{
    if s.len() == 0 {
        if cur.len() > 0 {
            seq![cur]
        } else {
            seq![]
        }
    } else if is_path_sep(s[0]) {
        (if cur.len() > 0 {
            seq![cur]
        } else {
            seq![]
        }) + segments_from(s.drop_first(), seq![])
    } else {
        segments_from(s.drop_first(), cur.push(s[0]))
    }
}

/// The non-empty segments of `s`: what lies between separators, empty pieces dropped.
pub open spec fn path_segments(s: Seq<char>) -> Seq<Seq<char>> {
    segments_from(s, seq![])
}

/// The characters of each vector, in order.
pub open spec fn texts(v: Seq<Vec<char>>) -> Seq<Seq<char>> {
    v.map_values(|x: Vec<char>| x@)
}

pub open spec fn cur_dir() -> Seq<char> {
    seq!['.']
}

pub open spec fn parent_dir() -> Seq<char> {
    seq!['.', '.']
}

/// `segs` with every `.` segment removed.
pub open spec fn without_cur_dirs(segs: Seq<Seq<char>>) -> Seq<Seq<char>>
    decreases segs.len(),
{
    if segs.len() == 0 {
        seq![]
    } else {
        (if segs[0] == cur_dir() {
            seq![]
        } else {
            seq![segs[0]]
        }) + without_cur_dirs(segs.drop_first())
    }
}

/// How many `..` segments `segs` starts with.
pub open spec fn leading_parents(segs: Seq<Seq<char>>) -> nat
    decreases segs.len(),
{
    if segs.len() > 0 && segs[0] == parent_dir() {
        1 + leading_parents(segs.drop_first())
    } else {
        0
    }
}

/// Walks `segs` onto `stack`: a `..` pops the last kept segment when there is one,
/// and every other segment (and a `..` met with an empty stack) is pushed.
pub open spec fn resolve_onto(stack: Seq<Seq<char>>, segs: Seq<Seq<char>>) -> Seq<Seq<char>>
    decreases segs.len(),
{
    if segs.len() == 0 {
        stack
    } else if segs[0] == parent_dir() && stack.len() > 0 {
        resolve_onto(stack.drop_last(), segs.drop_first())
    } else {
        resolve_onto(stack.push(segs[0]), segs.drop_first())
    }
}

/// The segments joined with `/` between consecutive ones.
pub open spec fn join_slash(segs: Seq<Seq<char>>) -> Seq<char>
    decreases segs.len(),
{
    if segs.len() == 0 {
        seq![]
    } else if segs.len() == 1 {
        segs[0]
    } else {
        join_slash(segs.drop_last()).push('/') + segs.last()
    }
}

pub open spec fn starts_with(s: Seq<char>, p: Seq<char>) -> bool {
    p.len() <= s.len() && s.take(p.len() as int) == p
}

/// `\?\UNC\`
pub open spec fn unc_prefix() -> Seq<char> {
    seq!['\\', '?', '\\', 'U', 'N', 'C', '\\']
}

/// `\?\`
pub open spec fn long_prefix() -> Seq<char> {
    seq!['\\', '?', '\\']
}

/// `\\`
pub open spec fn shared_prefix() -> Seq<char> {
    seq!['\\', '\\']
}

/// `.\`
pub open spec fn backslash_rel_root() -> Seq<char> {
    seq!['.', '\\']
}

/// `./`
pub open spec fn slash_rel_root() -> Seq<char> {
    seq!['.', '/']
}

/// `/`
pub open spec fn slash_root() -> Seq<char> {
    seq!['/']
}

/// The first of the root prefixes `\?\UNC\`, `\?\`, `\\`, `.\`, `./`, `/` that the
/// path starts with (the empty sequence when none does).
pub open spec fn root_prefix(path: Seq<char>) -> Seq<char> {
    if starts_with(path, unc_prefix()) {
        unc_prefix()
    } else if starts_with(path, long_prefix()) {
        long_prefix()
    } else if starts_with(path, shared_prefix()) {
        shared_prefix()
    } else if starts_with(path, backslash_rel_root()) {
        backslash_rel_root()
    } else if starts_with(path, slash_rel_root()) {
        slash_rel_root()
    } else if starts_with(path, slash_root()) {
        slash_root()
    } else {
        seq![]
    }
}

/// The root prefix as it is written back: a leading `./` or `.\` is dropped.
pub open spec fn kept_prefix(path: Seq<char>) -> Seq<char> {
    let p = root_prefix(path);
    if p == backslash_rel_root() || p == slash_rel_root() {
        seq![]
    } else {
        p
    }
}

pub open spec fn is_ascii_alpha(c: char) -> bool {
    ('a' <= c && c <= 'z') || ('A' <= c && c <= 'Z')
}

/// What follows the root prefix.
pub open spec fn after_prefix(path: Seq<char>) -> Seq<char> {
    path.skip(root_prefix(path).len() as int)
}

/// A drive letter (`X:`) follows the root prefix.
pub open spec fn has_drive(path: Seq<char>) -> bool {
    let rest = after_prefix(path);
    rest.len() >= 2 && is_ascii_alpha(rest[0]) && rest[1] == ':'
}

/// The drive text written back: the first two characters of the whole path
/// when a drive letter follows the root prefix.
pub open spec fn drive_text(path: Seq<char>) -> Seq<char> {
    if has_drive(path) {
        path.take(2)
    } else {
        seq![]
    }
}

/// The part of the path that is split into segments.
pub open spec fn path_body(path: Seq<char>) -> Seq<char> {
    if has_drive(path) {
        after_prefix(path).skip(2)
    } else {
        after_prefix(path)
    }
}

/// What the canonical form is made of once the segments that are not `.` are
/// known: written after `prefix` and `drive`, onto an output that already held
/// text (`had_output`) or was empty.
pub open spec fn resolved_tail(
    prefix: Seq<char>,
    drive: Seq<char>,
    kept: Seq<Seq<char>>,
    had_output: bool,
) -> Seq<char> {
    if !kept.contains(parent_dir()) {
        let head = prefix + drive;
        (if had_output || head.len() > 0 {
            head.push('/')
        } else {
            head
        }) + join_slash(kept)
    } else {
        let r = leading_parents(kept);
        if r == kept.len() {
            prefix + drive + join_slash(kept)
        } else {
            let rest = resolve_onto(seq![], kept.skip(r as int));
            let t = prefix + drive + join_slash(kept.take(r as int)) + parents_rest_sep(r, rest)
                + join_slash(rest);
            if !had_output && t.len() == 0 {
                seq!['.']
            } else {
                t
            }
        }
    }
}

/// The `/` between a run of leading `..` segments and the resolved rest, when
/// both are there.
pub open spec fn parents_rest_sep(r: nat, rest: Seq<Seq<char>>) -> Seq<char> {
    if r > 0 && rest.len() > 0 {
        seq!['/']
    } else {
        seq![]
    }
}

/// What canonicalizing a path with at least one segment appends.
pub open spec fn segments_tail(
    prefix: Seq<char>,
    drive: Seq<char>,
    comps: Seq<Seq<char>>,
    had_output: bool,
) -> Seq<char> {
    if comps.len() == 1 && comps[0] != parent_dir() {
        prefix + comps[0]
    } else {
        resolved_tail(prefix, drive, without_cur_dirs(comps), had_output)
    }
}

/// What canonicalizing `path` appends to an output that already held text
/// (`had_output`) or was empty.
pub open spec fn canonical_tail(path: Seq<char>, had_output: bool) -> Seq<char> {
    if path.len() == 0 {
        seq![]
    } else {
        let comps = path_segments(path_body(path));
        if comps.len() == 0 {
            path
        } else {
            segments_tail(kept_prefix(path), drive_text(path), comps, had_output)
        }
    }
}

/// The canonical form of `path` on its own.
pub open spec fn canonical(path: Seq<char>) -> Seq<char> {
    canonical_tail(path, false)
}

// ---------------------------------------------------------------------------
// Executable pieces.
// ---------------------------------------------------------------------------

fn starts_with_chars(s: &Vec<char>, p: &Vec<char>) -> (r: bool)
    ensures
        r == starts_with(s@, p@),
{
    if p.len() > s.len() {
        return false;
    }
    let mut i: usize = 0;
    while i < p.len()
        invariant
            i <= p.len() <= s.len(),
            forall|j: int| 0 <= j < i ==> s@[j] == p@[j],
        decreases p.len() - i,
    {
        if s[i] != p[i] {
            assert(s@.take(p.len() as int)[i as int] != p@[i as int]);
            return false;
        }
        i = i + 1;
    }
    assert(s@.take(p.len() as int) =~= p@);
    true
}

/// The length of the root prefix, and the length of the part of it that is
/// written back.
fn root_prefix_lengths(s: &Vec<char>) -> (r: (usize, usize))
    ensures
        r.0 == root_prefix(s@).len(),
        r.1 == kept_prefix(s@).len(),
        kept_prefix(s@) == s@.take(r.1 as int),
        r.1 <= r.0 <= s@.len(),
{
    let unc = vec!['\\', '?', '\\', 'U', 'N', 'C', '\\'];
    let long = vec!['\\', '?', '\\'];
    let shared = vec!['\\', '\\'];
    let back_rel = vec!['.', '\\'];
    let slash_rel = vec!['.', '/'];
    let root = vec!['/'];
    assert(unc@ == unc_prefix());
    assert(long@ == long_prefix());
    assert(shared@ == shared_prefix());
    assert(back_rel@ == backslash_rel_root());
    assert(slash_rel@ == slash_rel_root());
    assert(root@ == slash_root());
    assert(backslash_rel_root() != slash_rel_root()) by {
        assert(backslash_rel_root()[1] != slash_rel_root()[1]);
    }
    if starts_with_chars(s, &unc) {
        assert(unc_prefix() != backslash_rel_root());
        assert(unc_prefix() != slash_rel_root());
        (7, 7)
    } else if starts_with_chars(s, &long) {
        assert(long_prefix() != backslash_rel_root());
        assert(long_prefix() != slash_rel_root());
        (3, 3)
    } else if starts_with_chars(s, &shared) {
        assert(shared_prefix()[0] != backslash_rel_root()[0]);
        assert(shared_prefix()[0] != slash_rel_root()[0]);
        (2, 2)
    } else if starts_with_chars(s, &back_rel) {
        (2, 0)
    } else if starts_with_chars(s, &slash_rel) {
        (2, 0)
    } else if starts_with_chars(s, &root) {
        assert(slash_root() != backslash_rel_root());
        assert(slash_root() != slash_rel_root());
        (1, 1)
    } else {
        assert(s@.take(0) =~= seq![]);
        (0, 0)
    }
}

/// Appends `v[from..to]` to `out`.
fn append_chars(out: &mut String, v: &Vec<char>, from: usize, to: usize)
    requires
        from <= to <= v@.len(),
    ensures
        final(out)@ == old(out)@ + v@.subrange(from as int, to as int),
{
    let mut i = from;
    while i < to
        invariant
            from <= i <= to <= v@.len(),
            out@ == old(out)@ + v@.subrange(from as int, i as int),
        decreases to - i,
    {
        push_char(out, v[i]);
        assert(v@.subrange(from as int, i + 1) =~= v@.subrange(from as int, i as int).push(v@[i as int]));
        i = i + 1;
    }
}

/// The non-empty segments of `s[from..]`, split at `/` and `\`.
fn collect_path_slices(s: &Vec<char>, from: usize) -> (segs: Vec<Vec<char>>)
    requires
        from <= s@.len(),
    ensures
        texts(segs@) == path_segments(s@.skip(from as int)),
{
    let mut segs: Vec<Vec<char>> = Vec::new();
    let mut cur: Vec<char> = Vec::new();
    let mut i = from;
    while i < s.len()
        invariant
            from <= i <= s@.len(),
            path_segments(s@.skip(from as int)) == texts(segs@) + segments_from(s@.skip(i as int), cur@),
        decreases s@.len() - i,
    {
        let c = s[i];
        let ghost rest = s@.skip(i as int);
        assert(rest[0] == c);
        assert(rest.drop_first() =~= s@.skip(i + 1));
        if c == '/' || c == '\\' {
            if cur.len() > 0 {
                let ghost old_segs = segs@;
                let ghost cur_text = cur@;
                segs.push(cur);
                cur = Vec::new();
                assert(texts(segs@) =~= texts(old_segs).push(cur_text));
                assert(texts(old_segs) + (seq![cur_text] + segments_from(s@.skip(i + 1), seq![]))
                    =~= texts(segs@) + segments_from(s@.skip(i + 1), cur@));
            } else {
                assert(cur@ =~= seq![]);
                assert(seq![] + segments_from(s@.skip(i + 1), seq![]) =~= segments_from(s@.skip(i + 1), seq![]));
            }
        } else {
            cur.push(c);
        }
        i = i + 1;
    }
    assert(s@.skip(i as int) =~= seq![]);
    if cur.len() > 0 {
        let ghost old_segs = segs@;
        let ghost cur_text = cur@;
        segs.push(cur);
        assert(texts(segs@) =~= texts(old_segs).push(cur_text));
    } else {
        assert(texts(segs@) + seq![] =~= texts(segs@));
    }
    segs
}

fn is_cur_dir(v: &Vec<char>) -> (r: bool)
    ensures
        r == (v@ == cur_dir()),
{
    if v.len() == 1 && v[0] == '.' {
        assert(v@ =~= cur_dir());
        true
    } else {
        assert(v@.len() != 1 ==> v@ != cur_dir());
        assert(v@.len() == 1 ==> v@[0] != cur_dir()[0]);
        false
    }
}

fn is_parent_dir(v: &Vec<char>) -> (r: bool)
    ensures
        r == (v@ == parent_dir()),
{
    if v.len() == 2 && v[0] == '.' && v[1] == '.' {
        assert(v@ =~= parent_dir());
        true
    } else {
        assert(v@.len() != 2 ==> v@ != parent_dir());
        assert(v@.len() == 2 && v@[0] != '.' ==> v@[0] != parent_dir()[0]);
        assert(v@.len() == 2 && v@[1] != '.' ==> v@[1] != parent_dir()[1]);
        false
    }
}

fn copy_chars(v: &Vec<char>) -> (r: Vec<char>)
    ensures
        r@ == v@,
{
    let mut r: Vec<char> = Vec::new();
    let mut i: usize = 0;
    while i < v.len()
        invariant
            i <= v@.len(),
            r@ == v@.take(i as int),
        decreases v@.len() - i,
    {
        r.push(v[i]);
        assert(v@.take(i + 1) =~= v@.take(i as int).push(v@[i as int]));
        i = i + 1;
    }
    assert(v@.take(v@.len() as int) =~= v@);
    r
}

/// The segments that are not `.`.
fn drop_cur_dirs(segs: &Vec<Vec<char>>) -> (kept: Vec<Vec<char>>)
    ensures
        texts(kept@) == without_cur_dirs(texts(segs@)),
{
    let ghost t = texts(segs@);
    let mut kept: Vec<Vec<char>> = Vec::new();
    let mut i: usize = 0;
    assert(t.skip(0) =~= t);
    assert(texts(kept@) + without_cur_dirs(t) =~= without_cur_dirs(t));
    while i < segs.len()
        invariant
            i <= segs@.len(),
            t == texts(segs@),
            without_cur_dirs(t) == texts(kept@) + without_cur_dirs(t.skip(i as int)),
        decreases segs@.len() - i,
    {
        let ghost rest = t.skip(i as int);
        assert(rest[0] == segs@[i as int]@);
        assert(rest.drop_first() =~= t.skip(i + 1));
        let ghost old_kept = texts(kept@);
        if !is_cur_dir(&segs[i]) {
            let seg = copy_chars(&segs[i]);
            kept.push(seg);
            assert(texts(kept@) =~= old_kept.push(segs@[i as int]@));
            assert(old_kept + (seq![segs@[i as int]@] + without_cur_dirs(t.skip(i + 1)))
                =~= texts(kept@) + without_cur_dirs(t.skip(i + 1)));
        } else {
            assert(seq![] + without_cur_dirs(t.skip(i + 1)) =~= without_cur_dirs(t.skip(i + 1)));
        }
        i = i + 1;
    }
    assert(t.skip(i as int) =~= seq![]);
    assert(texts(kept@) + seq![] =~= texts(kept@));
    kept
}

fn contains_parent(segs: &Vec<Vec<char>>) -> (r: bool)
    ensures
        r == texts(segs@).contains(parent_dir()),
{
    let mut i: usize = 0;
    while i < segs.len()
        invariant
            i <= segs@.len(),
            forall|j: int| 0 <= j < i ==> texts(segs@)[j] != parent_dir(),
        decreases segs@.len() - i,
    {
        if is_parent_dir(&segs[i]) {
            assert(texts(segs@)[i as int] == parent_dir());
            return true;
        }
        i = i + 1;
    }
    false
}

fn leading_parent_count(segs: &Vec<Vec<char>>) -> (r: usize)
    ensures
        r == leading_parents(texts(segs@)),
        r <= segs@.len(),
{
    let ghost t = texts(segs@);
    let mut i: usize = 0;
    assert(t.skip(0) =~= t);
    while i < segs.len() && is_parent_dir(&segs[i])
        invariant
            i <= segs@.len(),
            t == texts(segs@),
            leading_parents(t) == i + leading_parents(t.skip(i as int)),
        decreases segs@.len() - i,
    {
        assert(t.skip(i as int).drop_first() =~= t.skip(i + 1));
        i = i + 1;
    }
    assert(i < segs@.len() ==> t.skip(i as int)[0] == t[i as int]);
    i
}

/// Resolves `..` segments of `segs[from..]` against the segments before them.
fn resolve_parents(segs: &Vec<Vec<char>>, from: usize) -> (out: Vec<Vec<char>>)
    requires
        from <= segs@.len(),
    ensures
        texts(out@) == resolve_onto(seq![], texts(segs@).skip(from as int)),
{
    let ghost t = texts(segs@);
    let mut out: Vec<Vec<char>> = Vec::new();
    let mut i = from;
    assert(texts(out@) =~= seq![]);
    while i < segs.len()
        invariant
            from <= i <= segs@.len(),
            t == texts(segs@),
            resolve_onto(seq![], t.skip(from as int)) == resolve_onto(texts(out@), t.skip(i as int)),
        decreases segs@.len() - i,
    {
        let ghost rest = t.skip(i as int);
        assert(rest[0] == segs@[i as int]@);
        assert(rest.drop_first() =~= t.skip(i + 1));
        let ghost old_out = texts(out@);
        if is_parent_dir(&segs[i]) && out.len() > 0 {
            out.pop();
            assert(texts(out@) =~= old_out.drop_last());
        } else {
            let seg = copy_chars(&segs[i]);
            out.push(seg);
            assert(texts(out@) =~= old_out.push(segs@[i as int]@));
        }
        i = i + 1;
    }
    assert(t.skip(i as int) =~= seq![]);
    out
}

/// Appends the segments `segs[from..to]` joined with `/`.
fn append_joined(out: &mut String, segs: &Vec<Vec<char>>, from: usize, to: usize)
    requires
        from <= to <= segs@.len(),
    ensures
        final(out)@ == old(out)@ + join_slash(texts(segs@).subrange(from as int, to as int)),
{
    let ghost t = texts(segs@);
    let mut i = from;
    assert(t.subrange(from as int, from as int) =~= seq![]);
    assert(old(out)@ + seq![] =~= old(out)@);
    while i < to
        invariant
            from <= i <= to <= segs@.len(),
            t == texts(segs@),
            out@ == old(out)@ + join_slash(t.subrange(from as int, i as int)),
        decreases to - i,
    {
        let ghost before = out@;
        let ghost part = t.subrange(from as int, i + 1);
        assert(part.drop_last() =~= t.subrange(from as int, i as int));
        assert(part.last() == segs@[i as int]@);
        if i > from {
            push_char(out, '/');
        } else {
            assert(part =~= seq![segs@[i as int]@]);
        }
        let ghost mid = out@;
        append_chars(out, &segs[i], 0, segs[i].len());
        assert(segs@[i as int]@.subrange(0, segs@[i as int]@.len() as int) =~= segs@[i as int]@);
        if i > from {
            assert(out@ =~= old(out)@ + join_slash(part));
        } else {
            assert(join_slash(t.subrange(from as int, i as int)) =~= seq![]);
            assert(out@ =~= old(out)@ + join_slash(part));
        }
        i = i + 1;
    }
}

fn is_ascii_alpha_char(c: char) -> (r: bool)
    ensures
        r == is_ascii_alpha(c),
{
    ('a' <= c && c <= 'z') || ('A' <= c && c <= 'Z')
}

/// Writes what `resolved_tail` describes, where the prefix and the drive are
/// `chars[..prefix_len]` and `chars[..drive_len]`.
fn write_resolved(
    output: &mut String,
    chars: &Vec<char>,
    prefix_len: usize,
    drive_len: usize,
    kept: &Vec<Vec<char>>,
)
    requires
        prefix_len <= chars@.len(),
        drive_len <= chars@.len(),
    ensures
        final(output)@ == old(output)@ + resolved_tail(
            chars@.subrange(0, prefix_len as int),
            chars@.subrange(0, drive_len as int),
            texts(kept@),
            old(output)@.len() > 0,
        ),
{
    let ghost had_output = old(output)@.len() > 0;
    let ghost prefix = chars@.subrange(0, prefix_len as int);
    let ghost drive = chars@.subrange(0, drive_len as int);
    let ghost ks = texts(kept@);
    assert(ks.subrange(0, ks.len() as int) =~= ks);
    if !contains_parent(kept) {
        append_chars(output, chars, 0, prefix_len);
        append_chars(output, chars, 0, drive_len);
        let ghost head = prefix + drive;
        assert(output@ =~= old(output)@ + head);
        if !output.as_str().is_empty() {
            push_char(output, '/');
            assert(output@ =~= old(output)@ + head.push('/'));
        }
        append_joined(output, kept, 0, kept.len());
        assert(output@ =~= old(output)@ + resolved_tail(prefix, drive, ks, had_output));
        return;
    }
    let r = leading_parent_count(kept);
    if r == kept.len() {
        append_chars(output, chars, 0, prefix_len);
        append_chars(output, chars, 0, drive_len);
        append_joined(output, kept, 0, kept.len());
        assert(output@ =~= old(output)@ + resolved_tail(prefix, drive, ks, had_output));
        return;
    }
    let resolved = resolve_parents(kept, r);
    let ghost rs = texts(resolved@);
    assert(rs.subrange(0, rs.len() as int) =~= rs);
    assert(ks.subrange(0, r as int) =~= ks.take(r as int));
    append_chars(output, chars, 0, prefix_len);
    append_chars(output, chars, 0, drive_len);
    append_joined(output, kept, 0, r);
    if r > 0 && resolved.len() > 0 {
        push_char(output, '/');
    }
    append_joined(output, &resolved, 0, resolved.len());
    let ghost t = prefix + drive + join_slash(ks.take(r as int)) + parents_rest_sep(r as nat, rs)
        + join_slash(rs);
    assert(output@ =~= old(output)@ + t);
    if output.as_str().is_empty() {
        push_char(output, '.');
    }
    assert(output@ =~= old(output)@ + resolved_tail(prefix, drive, ks, had_output));
}

/// Canonicalizes `path` and appends the result to `output`: a root prefix
/// (`\?\UNC\`, `\?\`, `\\`, `/`; `./` and `.\` are dropped) and a drive letter are
/// kept, `.` segments are removed, `..` segments cancel the segment before them,
/// and segments are joined with `/`.
pub fn rs_canonicalize_path(path: &str, output: &mut String)
    ensures
        final(output)@ == old(output)@ + canonical_tail(path@, old(output)@.len() > 0),
{
    let chars = str_chars(path);
    if chars.len() == 0 {
        assert(old(output)@ + seq![] =~= old(output)@);
        return;
    }
    let ghost had_output = old(output)@.len() > 0;
    let ghost p = chars@;
    let (strip_len, prefix_len) = root_prefix_lengths(&chars);
    assert(after_prefix(p) =~= p.skip(strip_len as int));
    let mut drive_len: usize = 0;
    let mut body_start = strip_len;
    if chars.len() - strip_len >= 2 && is_ascii_alpha_char(chars[strip_len]) && chars[strip_len
        + 1] == ':' {
        drive_len = 2;
        body_start = strip_len + 2;
        assert(has_drive(p));
        assert(path_body(p) =~= p.skip(body_start as int));
    } else {
        assert(!has_drive(p));
        assert(path_body(p) =~= p.skip(body_start as int));
    }
    assert(drive_text(p) =~= p.subrange(0, drive_len as int));
    assert(kept_prefix(p) =~= p.subrange(0, prefix_len as int));
    let comps = collect_path_slices(&chars, body_start);
    if comps.len() == 0 {
        append_chars(output, &chars, 0, chars.len());
        assert(p.subrange(0, p.len() as int) =~= p);
        return;
    }
    if comps.len() == 1 && !is_parent_dir(&comps[0]) {
        append_chars(output, &chars, 0, prefix_len);
        append_chars(output, &comps[0], 0, comps[0].len());
        assert(comps@[0]@.subrange(0, comps@[0]@.len() as int) =~= comps@[0]@);
        assert(output@ =~= old(output)@ + canonical_tail(p, had_output));
        return;
    }
    let kept = drop_cur_dirs(&comps);
    write_resolved(output, &chars, prefix_len, drive_len, &kept);
}

// ---------------------------------------------------------------------------
// Laws.
// ---------------------------------------------------------------------------

/// The canonical form of a path always starts with the root prefix that is
/// written back (`/`, `\\`, `\?\` or `\?\UNC\`; nothing for `./` and `.\`).
pub proof fn law_canonical_keeps_root_prefix(path: Seq<char>)
    ensures
        starts_with(canonical(path), kept_prefix(path)),
{
    let prefix = kept_prefix(path);
    let c = canonical(path);
    if path.len() == 0 {
        assert(root_prefix(path) == Seq::<char>::empty());
        assert(prefix =~= seq![]);
        assert(c.take(0) =~= prefix);
    } else {
        let comps = path_segments(path_body(path));
        let drive = drive_text(path);
        assert(prefix.len() <= path.len() && path.take(prefix.len() as int) == prefix) by {
            if root_prefix(path) == backslash_rel_root() || root_prefix(path) == slash_rel_root() {
                assert(prefix =~= seq![]);
                assert(path.take(0) =~= prefix);
            }
        }
        if comps.len() == 0 {
            assert(c == path);
        } else if comps.len() == 1 && comps[0] != parent_dir() {
            assert(c == prefix + comps[0]);
            assert(c.take(prefix.len() as int) =~= prefix);
        } else {
            let kept = without_cur_dirs(comps);
            if !kept.contains(parent_dir()) {
                let head = prefix + drive;
                let lead = if head.len() > 0 { head.push('/') } else { head };
                assert(c == lead + join_slash(kept));
                assert(c.take(prefix.len() as int) =~= prefix);
            } else {
                let r = leading_parents(kept);
                if r == kept.len() {
                    assert(c == prefix + drive + join_slash(kept));
                    assert(c.take(prefix.len() as int) =~= prefix);
                } else {
                    let rest = resolve_onto(seq![], kept.skip(r as int));
                    let t = prefix + drive + join_slash(kept.take(r as int)) + parents_rest_sep(
                        r,
                        rest,
                    ) + join_slash(rest);
                    if t.len() == 0 {
                        assert(prefix.len() == 0);
                        assert(c.take(0) =~= prefix);
                    } else {
                        assert(c == t);
                        assert(c.take(prefix.len() as int) =~= prefix);
                    }
                }
            }
        }
    }
}

/// No character of `s` separates segments.
pub open spec fn has_no_sep(s: Seq<char>) -> bool {
    forall|i: int| 0 <= i < s.len() ==> !is_path_sep(#[trigger] s[i])
}

proof fn lemma_segments_of_run(x: Seq<char>, cur: Seq<char>)
    requires
        has_no_sep(x),
        cur.len() + x.len() > 0,
    ensures
        segments_from(x, cur) == seq![cur + x],
    decreases x.len(),
{
    if x.len() == 0 {
        assert(cur + x =~= cur);
    } else {
        let y = x.drop_first();
        assert(has_no_sep(y)) by {
            assert forall|i: int| 0 <= i < y.len() implies !is_path_sep(#[trigger] y[i]) by {
                assert(y[i] == x[i + 1]);
            }
        }
        assert(!is_path_sep(x[0]));
        lemma_segments_of_run(y, cur.push(x[0]));
        assert(cur.push(x[0]) + y =~= cur + x);
    }
}

proof fn lemma_segments_split(s: Seq<char>, t: Seq<char>, cur: Seq<char>)
    ensures
        segments_from(s + seq!['/'] + t, cur) == segments_from(s, cur) + segments_from(t, seq![]),
    decreases s.len(),
{
    let w = s + seq!['/'] + t;
    if s.len() == 0 {
        assert(w =~= seq!['/'] + t);
        assert(w.drop_first() =~= t);
        assert(w[0] == '/');
        let flushed: Seq<Seq<char>> = if cur.len() > 0 { seq![cur] } else { seq![] };
        assert(segments_from(s, cur) == flushed);
    } else {
        assert(w[0] == s[0]);
        assert(w.drop_first() =~= s.drop_first() + seq!['/'] + t);
        if is_path_sep(s[0]) {
            lemma_segments_split(s.drop_first(), t, seq![]);
            let flushed: Seq<Seq<char>> = if cur.len() > 0 { seq![cur] } else { seq![] };
            assert(flushed + (segments_from(s.drop_first(), seq![]) + segments_from(t, seq![]))
                =~= (flushed + segments_from(s.drop_first(), seq![])) + segments_from(t, seq![]));
        } else {
            lemma_segments_split(s.drop_first(), t, cur.push(s[0]));
        }
    }
}

/// Every segment is non-empty and holds no separator.
pub open spec fn plain_segments(segs: Seq<Seq<char>>) -> bool {
    forall|i: int| 0 <= i < segs.len() ==> (#[trigger] segs[i]).len() > 0 && has_no_sep(segs[i])
}

proof fn lemma_segments_of_join(segs: Seq<Seq<char>>)
    requires
        plain_segments(segs),
    ensures
        path_segments(join_slash(segs)) == segs,
    decreases segs.len(),
{
    if segs.len() == 1 {
        assert(segs[0].len() > 0);
        lemma_segments_of_run(segs[0], seq![]);
        assert(seq![] + segs[0] =~= segs[0]);
        assert(seq![segs[0]] =~= segs);
    } else if segs.len() > 1 {
        let init = segs.drop_last();
        assert(plain_segments(init)) by {
            assert forall|i: int| 0 <= i < init.len() implies (#[trigger] init[i]).len() > 0
                && has_no_sep(init[i]) by {
                assert(init[i] == segs[i]);
            }
        }
        lemma_segments_of_join(init);
        lemma_segments_split(join_slash(init), segs.last(), seq![]);
        assert(join_slash(init).push('/') + segs.last() =~= join_slash(init) + seq!['/'] + segs.last());
        assert(segs.last().len() > 0 && has_no_sep(segs.last()));
        lemma_segments_of_run(segs.last(), seq![]);
        assert(seq![] + segs.last() =~= segs.last());
        assert(init + seq![segs.last()] =~= segs);
    } else {
        assert(segs =~= seq![]);
        assert(path_segments(seq![]) =~= seq![]);
    }
}

proof fn lemma_path_segments_plain(s: Seq<char>, cur: Seq<char>)
    requires
        has_no_sep(cur),
    ensures
        plain_segments(segments_from(s, cur)),
        (forall|c: char| !s.contains(c) && !cur.contains(c) ==> forall|i: int|
            0 <= i < segments_from(s, cur).len() ==> !(#[trigger] segments_from(s, cur)[i]).contains(c)),
    decreases s.len(),
{
    let flushed: Seq<Seq<char>> = if cur.len() > 0 { seq![cur] } else { seq![] };
    if s.len() == 0 {
    } else if is_path_sep(s[0]) {
        lemma_path_segments_plain(s.drop_first(), seq![]);
        let rest = segments_from(s.drop_first(), seq![]);
        assert forall|i: int| 0 <= i < (flushed + rest).len() implies (#[trigger] (flushed
            + rest)[i]).len() > 0 && has_no_sep((flushed + rest)[i]) by {
            if i < flushed.len() {
                assert((flushed + rest)[i] == cur);
            } else {
                assert((flushed + rest)[i] == rest[i - flushed.len()]);
            }
        }
        assert forall|c: char| !s.contains(c) && !cur.contains(c) implies forall|i: int|
            0 <= i < (flushed + rest).len() ==> !(#[trigger] (flushed + rest)[i]).contains(c) by {
            assert forall|i: int| 0 <= i < (flushed + rest).len() implies !(#[trigger] (flushed
                + rest)[i]).contains(c) by {
                if i < flushed.len() {
                    assert((flushed + rest)[i] == cur);
                } else {
                    assert((flushed + rest)[i] == rest[i - flushed.len()]);
                    assert(!s.drop_first().contains(c)) by {
                        if s.drop_first().contains(c) {
                            let j = choose|j: int| 0 <= j < s.drop_first().len() && s.drop_first()[j] == c;
                            assert(s[j + 1] == c);
                        }
                    }
                    assert(!Seq::<char>::empty().contains(c));
                }
            }
        }
    } else {
        let nc = cur.push(s[0]);
        assert(has_no_sep(nc)) by {
            assert forall|i: int| 0 <= i < nc.len() implies !is_path_sep(#[trigger] nc[i]) by {
                if i < cur.len() {
                    assert(nc[i] == cur[i]);
                }
            }
        }
        lemma_path_segments_plain(s.drop_first(), nc);
        assert forall|c: char| !s.contains(c) && !cur.contains(c) implies !s.drop_first().contains(c)
            && !nc.contains(c) by {
            if s.drop_first().contains(c) {
                let j = choose|j: int| 0 <= j < s.drop_first().len() && s.drop_first()[j] == c;
                assert(s[j + 1] == c);
            }
            if nc.contains(c) {
                let j = choose|j: int| 0 <= j < nc.len() && nc[j] == c;
                if j < cur.len() {
                    assert(cur[j] == c);
                } else {
                    assert(s[0] == c);
                }
            }
        }
    }
}

proof fn lemma_without_cur_dirs_plain(segs: Seq<Seq<char>>)
    ensures
        forall|i: int| 0 <= i < without_cur_dirs(segs).len() ==> segs.contains(
            #[trigger] without_cur_dirs(segs)[i],
        ) && without_cur_dirs(segs)[i] != cur_dir(),
        !segs.contains(cur_dir()) ==> without_cur_dirs(segs) == segs,
    decreases segs.len(),
{
    if segs.len() > 0 {
        let rest = segs.drop_first();
        lemma_without_cur_dirs_plain(rest);
        let head: Seq<Seq<char>> = if segs[0] == cur_dir() { seq![] } else { seq![segs[0]] };
        let w = head + without_cur_dirs(rest);
        assert forall|i: int| 0 <= i < w.len() implies segs.contains(#[trigger] w[i]) && w[i]
            != cur_dir() by {
            if i < head.len() {
                assert(w[i] == segs[0]);
            } else {
                assert(w[i] == without_cur_dirs(rest)[i - head.len()]);
                let x = w[i];
                let j = choose|j: int| 0 <= j < rest.len() && rest[j] == x;
                assert(segs[j + 1] == x);
            }
        }
        if !segs.contains(cur_dir()) {
            assert(!rest.contains(cur_dir())) by {
                if rest.contains(cur_dir()) {
                    let j = choose|j: int| 0 <= j < rest.len() && rest[j] == cur_dir();
                    assert(segs[j + 1] == cur_dir());
                }
            }
            assert(segs[0] != cur_dir()) by {
                assert(segs.contains(segs[0]));
            }
            assert(w =~= segs);
        }
    } else {
        assert(without_cur_dirs(segs) =~= segs);
    }
}

/// A relative path without drive letters: its root prefix is at most `./` or
/// `.\`, and it holds no `:`.
pub open spec fn is_plain_relative(path: Seq<char>) -> bool {
    kept_prefix(path).len() == 0 && !path.contains(':')
}

/// For a relative path without drive letters and without `..` segments, the
/// canonical form is its segments other than `.` joined with `/` (when there is
/// one), and canonicalizing that form again changes nothing.
pub proof fn law_canonical_plain_relative(path: Seq<char>)
    requires
        is_plain_relative(path),
        !path_segments(path_body(path)).contains(parent_dir()),
        without_cur_dirs(path_segments(path_body(path))).len() > 0,
    ensures
        canonical(path) == join_slash(without_cur_dirs(path_segments(path_body(path)))),
        canonical(canonical(path)) == canonical(path),
{
    let body = path_body(path);
    let comps = path_segments(body);
    let kept = without_cur_dirs(comps);
    assert(!has_drive(path)) by {
        if has_drive(path) {
            let rest = after_prefix(path);
            assert(rest[1] == path[root_prefix(path).len() as int + 1]);
            assert(path.contains(':'));
        }
    }
    assert(drive_text(path) =~= seq![]);
    assert(kept_prefix(path) =~= seq![]);
    assert(!body.contains(':')) by {
        if body.contains(':') {
            let j = choose|j: int| 0 <= j < body.len() && body[j] == ':';
            assert(path[root_prefix(path).len() as int + j] == ':');
        }
    }
    lemma_path_segments_plain(body, seq![]);
    lemma_without_cur_dirs_plain(comps);
    assert(!kept.contains(parent_dir())) by {
        if kept.contains(parent_dir()) {
            let j = choose|j: int| 0 <= j < kept.len() && kept[j] == parent_dir();
            assert(comps.contains(kept[j]));
        }
    }
    assert(plain_segments(kept)) by {
        assert forall|i: int| 0 <= i < kept.len() implies (#[trigger] kept[i]).len() > 0 && has_no_sep(
            kept[i],
        ) by {
            let x = kept[i];
            assert(comps.contains(x));
            let j = choose|j: int| 0 <= j < comps.len() && comps[j] == x;
            assert(comps[j].len() > 0 && has_no_sep(comps[j]));
        }
    }
    // The first computation.
    if comps.len() == 1 {
        assert(comps[0] != parent_dir()) by {
            assert(comps.contains(comps[0]));
        }
        assert(comps[0] != cur_dir()) by {
            if comps[0] == cur_dir() {
                assert(comps.drop_first() =~= seq![]);
                assert(without_cur_dirs(comps.drop_first()) =~= seq![]);
                assert(kept =~= seq![]);
            }
        }
        assert(comps.drop_first() =~= seq![]);
        assert(without_cur_dirs(comps.drop_first()) =~= seq![]);
        assert(kept =~= seq![comps[0]]);
        assert(canonical(path) == seq![] + comps[0]);
        assert(seq![] + comps[0] =~= comps[0]);
    } else {
        assert(canonical(path) =~= join_slash(kept));
    }
    let c = join_slash(kept);
    assert(canonical(path) == c);
    // The second computation.
    lemma_segments_of_join(kept);
    assert(forall|i: int| 0 <= i < kept.len() ==> #[trigger] kept[i] != cur_dir());
    assert(!kept.contains(cur_dir())) by {
        if kept.contains(cur_dir()) {
            let j = choose|j: int| 0 <= j < kept.len() && kept[j] == cur_dir();
        }
    }
    lemma_join_plain_start(kept);
    assert(root_prefix(c) =~= seq![]);
    assert(after_prefix(c) =~= c);
    assert(!has_drive(c)) by {
        if has_drive(c) {
            lemma_join_no_char(kept, ':');
            assert(c.contains(c[1]));
        }
    }
    assert(path_body(c) == c);
    assert(kept_prefix(c) =~= seq![]);
    assert(drive_text(c) =~= seq![]);
    lemma_without_cur_dirs_plain(kept);
    if kept.len() == 1 {
        assert(kept[0] != parent_dir()) by {
            assert(kept.contains(kept[0]));
        }
        assert(c == kept[0]);
        assert(canonical(c) == seq![] + kept[0]);
        assert(seq![] + kept[0] =~= kept[0]);
    } else {
        assert(canonical(c) =~= join_slash(kept));
    }
}

/// A segment that canonical forms may hold: non-empty, without separators,
/// and not `.`.
pub open spec fn good_segment(x: Seq<char>) -> bool {
    x.len() > 0 && has_no_sep(x) && x != cur_dir()
}

/// No segment holds a `:`.
pub open spec fn colon_free(s: Seq<Seq<char>>) -> bool {
    forall|i: int| 0 <= i < s.len() ==> !(#[trigger] s[i]).contains(':')
}

pub open spec fn all_good(s: Seq<Seq<char>>) -> bool {
    forall|i: int| 0 <= i < s.len() ==> good_segment(#[trigger] s[i])
}

/// Every `..` comes before every other segment.
pub open spec fn parents_first(s: Seq<Seq<char>>) -> bool {
    forall|i: int, j: int|
        0 <= i < j < s.len() && (#[trigger] s[i]) != parent_dir() ==> (#[trigger] s[j]) != parent_dir()
}

/// Only the first segment may be `..`.
pub open spec fn only_head_parent(s: Seq<Seq<char>>) -> bool {
    forall|i: int| 0 < i < s.len() ==> (#[trigger] s[i]) != parent_dir()
}

proof fn lemma_parent_dir_good()
    ensures
        good_segment(parent_dir()),
{
    let p = parent_dir();
    assert(!p.contains(':')) by {
        if p.contains(':') {
            let j = choose|j: int| 0 <= j < p.len() && p[j] == ':';
        }
    }
    assert(p != cur_dir()) by {
        assert(p.len() != cur_dir().len());
    }
}

proof fn lemma_leading_parents_facts(s: Seq<Seq<char>>)
    ensures
        leading_parents(s) <= s.len(),
        forall|i: int| 0 <= i < leading_parents(s) ==> #[trigger] s[i] == parent_dir(),
        leading_parents(s) < s.len() ==> s[leading_parents(s) as int] != parent_dir(),
    decreases s.len(),
{
    if s.len() > 0 && s[0] == parent_dir() {
        let t = s.drop_first();
        lemma_leading_parents_facts(t);
        assert forall|i: int| 0 <= i < leading_parents(s) implies #[trigger] s[i] == parent_dir() by {
            if i > 0 {
                assert(s[i] == t[i - 1]);
            }
        }
        if leading_parents(s) < s.len() {
            assert(s[leading_parents(s) as int] == t[leading_parents(t) as int]);
        }
    }
}

proof fn lemma_resolve_no_parents(stack: Seq<Seq<char>>, segs: Seq<Seq<char>>)
    requires
        forall|i: int| 0 <= i < segs.len() ==> #[trigger] segs[i] != parent_dir(),
    ensures
        resolve_onto(stack, segs) == stack + segs,
    decreases segs.len(),
{
    if segs.len() > 0 {
        let t = segs.drop_first();
        assert(segs[0] != parent_dir());
        assert forall|i: int| 0 <= i < t.len() implies #[trigger] t[i] != parent_dir() by {
            assert(t[i] == segs[i + 1]);
        }
        lemma_resolve_no_parents(stack.push(segs[0]), t);
        assert(stack.push(segs[0]) + t =~= stack + segs);
    } else {
        assert(stack + segs =~= stack);
    }
}

proof fn lemma_resolve_shape(stack: Seq<Seq<char>>, segs: Seq<Seq<char>>)
    requires
        only_head_parent(stack),
        all_good(stack),
        all_good(segs),
    ensures
        only_head_parent(resolve_onto(stack, segs)),
        all_good(resolve_onto(stack, segs)),
        colon_free(stack) && colon_free(segs) ==> colon_free(resolve_onto(stack, segs)),
    decreases segs.len(),
{
    if segs.len() > 0 {
        let t = segs.drop_first();
        assert(all_good(t)) by {
            assert forall|i: int| 0 <= i < t.len() implies good_segment(#[trigger] t[i]) by {
                assert(t[i] == segs[i + 1]);
            }
        }
        assert(good_segment(segs[0]));
        assert(colon_free(segs) ==> colon_free(t)) by {
            if colon_free(segs) {
                assert forall|i: int| 0 <= i < t.len() implies !(#[trigger] t[i]).contains(':') by {
                    assert(t[i] == segs[i + 1]);
                }
            }
        }
        if segs[0] == parent_dir() && stack.len() > 0 {
            let d = stack.drop_last();
            assert(colon_free(stack) ==> colon_free(d)) by {
                if colon_free(stack) {
                    assert forall|i: int| 0 <= i < d.len() implies !(#[trigger] d[i]).contains(':') by {
                        assert(d[i] == stack[i]);
                    }
                }
            }
            assert forall|i: int| 0 < i < d.len() implies (#[trigger] d[i]) != parent_dir() by {
                assert(d[i] == stack[i]);
            }
            assert forall|i: int| 0 <= i < d.len() implies good_segment(#[trigger] d[i]) by {
                assert(d[i] == stack[i]);
            }
            lemma_resolve_shape(d, t);
        } else {
            let p = stack.push(segs[0]);
            assert forall|i: int| 0 < i < p.len() implies (#[trigger] p[i]) != parent_dir() by {
                if i < stack.len() {
                    assert(p[i] == stack[i]);
                } else {
                    assert(p[i] == segs[0]);
                    if segs[0] == parent_dir() {
                        assert(stack.len() == 0);
                    }
                }
            }
            assert forall|i: int| 0 <= i < p.len() implies good_segment(#[trigger] p[i]) by {
                if i < stack.len() {
                    assert(p[i] == stack[i]);
                }
            }
            assert(colon_free(stack) && colon_free(segs) ==> colon_free(p)) by {
                if colon_free(stack) && colon_free(segs) {
                    assert forall|i: int| 0 <= i < p.len() implies !(#[trigger] p[i]).contains(':') by {
                        if i < stack.len() {
                            assert(p[i] == stack[i]);
                        } else {
                            assert(p[i] == segs[0]);
                        }
                    }
                }
            }
            lemma_resolve_shape(p, t);
        }
    }
}

proof fn lemma_join_concat(a: Seq<Seq<char>>, b: Seq<Seq<char>>)
    ensures
        join_slash(a) + parents_rest_sep(a.len(), b) + join_slash(b) == join_slash(a + b),
    decreases b.len(),
{
    if b.len() == 0 {
        assert(a + b =~= a);
        assert(join_slash(a) + seq![] + seq![] =~= join_slash(a));
    } else if a.len() == 0 {
        assert(a + b =~= b);
        assert(seq![] + seq![] + join_slash(b) =~= join_slash(b));
    } else if b.len() == 1 {
        assert((a + b).drop_last() =~= a);
        assert((a + b).last() == b[0]);
        assert(join_slash(a) + seq!['/'] + b[0] =~= join_slash(a).push('/') + b[0]);
    } else {
        let b2 = b.drop_last();
        lemma_join_concat(a, b2);
        assert((a + b).drop_last() =~= a + b2);
        assert((a + b).last() == b.last());
        assert(join_slash(a) + seq!['/'] + (join_slash(b2).push('/') + b.last()) =~= (join_slash(a)
            + seq!['/'] + join_slash(b2)).push('/') + b.last());
    }
}

proof fn lemma_good_plain(s: Seq<Seq<char>>)
    requires
        all_good(s),
    ensures
        plain_segments(s),
        !s.contains(cur_dir()),
{
    assert forall|i: int| 0 <= i < s.len() implies (#[trigger] s[i]).len() > 0 && has_no_sep(s[i]) by {
        assert(good_segment(s[i]));
    }
    if s.contains(cur_dir()) {
        let j = choose|j: int| 0 <= j < s.len() && s[j] == cur_dir();
        assert(good_segment(s[j]));
    }
}

/// `.` canonicalizes to itself.
proof fn lemma_canonical_dot()
    ensures
        canonical(cur_dir()) == cur_dir(),
{
    let c = cur_dir();
    assert(!starts_with(c, unc_prefix()) && !starts_with(c, long_prefix()) && !starts_with(
        c,
        shared_prefix(),
    ) && !starts_with(c, backslash_rel_root()) && !starts_with(c, slash_rel_root()));
    assert(!starts_with(c, slash_root())) by {
        if starts_with(c, slash_root()) {
            assert(c.take(1)[0] == slash_root()[0]);
        }
    }
    assert(root_prefix(c) =~= seq![]);
    assert(after_prefix(c) =~= c);
    assert(path_body(c) == c);
    assert(plain_segments(seq![c])) by {
        assert(has_no_sep(c));
    }
    lemma_segments_of_join(seq![c]);
    assert(join_slash(seq![c]) == c);
    assert(kept_prefix(c) =~= seq![]);
    assert(seq![] + c =~= c);
}

/// A join of good segments in which every `..` comes first canonicalizes to
/// itself.
proof fn lemma_canonical_of_resolved(s: Seq<Seq<char>>)
    requires
        s.len() > 0,
        all_good(s),
        colon_free(s),
        parents_first(s),
    ensures
        canonical(join_slash(s)) == join_slash(s),
{
    lemma_good_plain(s);
    let c = join_slash(s);
    lemma_segments_of_join(s);
    lemma_join_plain_start(s);
    lemma_join_starts_with_first(s);
    assert(good_segment(s[0]));
    assert(root_prefix(c) =~= seq![]);
    assert(after_prefix(c) =~= c);
    assert(!has_drive(c)) by {
        if has_drive(c) {
            lemma_join_no_char(s, ':');
            assert(c.contains(c[1]));
        }
    }
    assert(path_body(c) == c);
    assert(kept_prefix(c) =~= seq![]);
    assert(drive_text(c) =~= seq![]);
    assert(c.len() > 0);
    lemma_without_cur_dirs_plain(s);
    assert(without_cur_dirs(s) == s);
    if s.len() == 1 && s[0] != parent_dir() {
        assert(c == s[0]);
        assert(seq![] + s[0] =~= s[0]);
    } else if !s.contains(parent_dir()) {
        assert(seq![] + seq![] + join_slash(s) =~= join_slash(s));
    } else {
        let r = leading_parents(s);
        lemma_leading_parents_facts(s);
        if r == s.len() {
            assert(seq![] + seq![] + join_slash(s) =~= join_slash(s));
        } else {
            let tail = s.skip(r as int);
            assert forall|i: int| 0 <= i < tail.len() implies #[trigger] tail[i] != parent_dir() by {
                assert(tail[i] == s[r + i]);
                if i > 0 {
                    assert(s[r as int] != parent_dir());
                }
            }
            lemma_resolve_no_parents(seq![], tail);
            assert(seq![] + tail =~= tail);
            lemma_join_concat(s.take(r as int), tail);
            assert(s.take(r as int) + tail =~= s);
            assert(s.take(r as int).len() == r);
            let t = seq![] + seq![] + join_slash(s.take(r as int)) + parents_rest_sep(r, tail)
                + join_slash(tail);
            assert(t =~= join_slash(s));
        }
    }
}

/// Canonicalizing the canonical form of a relative path without drive
/// letters (no root prefix other than `./` or `.\`, no `:`) changes nothing:
/// canonical forms of such paths are fixed points.
pub proof fn law_canonical_relative_idempotent(path: Seq<char>)
    requires
        is_plain_relative(path),
    ensures
        canonical(canonical(path)) == canonical(path),
{
    if path.len() == 0 {
        return;
    }
    let body = path_body(path);
    let comps = path_segments(body);
    let kept = without_cur_dirs(comps);
    assert(!has_drive(path)) by {
        if has_drive(path) {
            let rest = after_prefix(path);
            assert(rest[1] == path[root_prefix(path).len() as int + 1]);
            assert(path.contains(':'));
        }
    }
    assert(drive_text(path) =~= seq![]);
    assert(kept_prefix(path) =~= seq![]);
    assert(!body.contains(':')) by {
        if body.contains(':') {
            let j = choose|j: int| 0 <= j < body.len() && body[j] == ':';
            assert(path[root_prefix(path).len() as int + j] == ':');
        }
    }
    assert(!Seq::<char>::empty().contains(':'));
    lemma_path_segments_plain(body, seq![]);
    lemma_without_cur_dirs_plain(comps);
    lemma_parent_dir_good();
    assert(all_good(kept)) by {
        assert forall|i: int| 0 <= i < kept.len() implies good_segment(#[trigger] kept[i]) by {
            let x = kept[i];
            let j = choose|j: int| 0 <= j < comps.len() && comps[j] == x;
            assert(comps[j].len() > 0 && has_no_sep(comps[j]));
        }
    }
    assert(colon_free(kept)) by {
        assert forall|i: int| 0 <= i < kept.len() implies !(#[trigger] kept[i]).contains(':') by {
            let x = kept[i];
            let j = choose|j: int| 0 <= j < comps.len() && comps[j] == x;
            assert(!comps[j].contains(':'));
        }
    }
    let c = canonical(path);
    if comps.len() == 0 {
        assert(c == path);
    } else if comps.len() == 1 && comps[0] != parent_dir() {
        assert(c == seq![] + comps[0]);
        assert(seq![] + comps[0] =~= comps[0]);
        if comps[0] == cur_dir() {
            lemma_canonical_dot();
        } else {
            assert(comps.drop_first() =~= seq![]);
            assert(without_cur_dirs(comps.drop_first()) =~= seq![]);
            assert(kept =~= seq![comps[0]]);
            assert(good_segment(kept[0]));
            assert(join_slash(seq![comps[0]]) == comps[0]);
            lemma_canonical_of_resolved(seq![comps[0]]);
        }
    } else if !kept.contains(parent_dir()) {
        assert(c =~= join_slash(kept));
        if kept.len() > 0 {
            lemma_canonical_of_resolved(kept);
        }
    } else {
        let r = leading_parents(kept);
        lemma_leading_parents_facts(kept);
        if r == kept.len() {
            assert(c =~= join_slash(kept));
            assert(parents_first(kept));
            lemma_canonical_of_resolved(kept);
        } else {
            let tail = kept.skip(r as int);
            let rest = resolve_onto(seq![], tail);
            assert(all_good(tail)) by {
                assert forall|i: int| 0 <= i < tail.len() implies good_segment(#[trigger] tail[i]) by {
                    assert(tail[i] == kept[r + i]);
                }
            }
            assert(colon_free(tail)) by {
                assert forall|i: int| 0 <= i < tail.len() implies !(#[trigger] tail[i]).contains(':') by {
                    assert(tail[i] == kept[r + i]);
                }
            }
            lemma_resolve_shape(seq![], tail);
            let head = kept.take(r as int);
            let st = head + rest;
            lemma_join_concat(head, rest);
            assert(colon_free(st)) by {
                assert forall|i: int| 0 <= i < st.len() implies !(#[trigger] st[i]).contains(':') by {
                    if i < r {
                        assert(st[i] == kept[i]);
                    } else {
                        assert(st[i] == rest[i - r]);
                    }
                }
            }
            let t = seq![] + seq![] + join_slash(head) + parents_rest_sep(r, rest) + join_slash(rest);
            assert(t =~= join_slash(st));
            if t.len() == 0 {
                assert(c == cur_dir());
                lemma_canonical_dot();
            } else {
                assert(c == t);
                assert(st.len() > 0);
                assert(all_good(st)) by {
                    assert forall|i: int| 0 <= i < st.len() implies good_segment(#[trigger] st[i]) by {
                        if i < r {
                            assert(st[i] == kept[i]);
                        } else {
                            assert(st[i] == rest[i - r]);
                        }
                    }
                }
                assert(parents_first(st)) by {
                    assert forall|i: int, j: int|
                        0 <= i < j < st.len() && (#[trigger] st[i]) != parent_dir() implies (#[trigger] st[j])
                        != parent_dir() by {
                        if i < r {
                            assert(st[i] == kept[i]);
                        } else {
                            assert(st[j] == rest[j - r]);
                        }
                    }
                }
                lemma_canonical_of_resolved(st);
            }
        }
    }
}

/// The root prefixes that canonical forms keep: none, `\?\UNC\`, `\?\`, `\\`
/// and `/`.
pub open spec fn is_kept_prefix_value(p: Seq<char>) -> bool {
    p == Seq::<char>::empty() || p == unc_prefix() || p == long_prefix() || p == shared_prefix()
        || p == slash_root()
}

/// A drive: an ASCII letter and a colon.
pub open spec fn is_drive_value(d: Seq<char>) -> bool {
    d.len() == 2 && is_ascii_alpha(d[0]) && d[1] == ':'
}

pub open spec fn opt_slash(b: bool) -> Seq<char> {
    if b {
        seq!['/']
    } else {
        seq![]
    }
}

proof fn lemma_no_sep_chars(x: Seq<char>)
    requires
        has_no_sep(x),
    ensures
        !x.contains('\\'),
        !x.contains('/'),
{
    if x.contains('\\') {
        let j = choose|j: int| 0 <= j < x.len() && x[j] == '\\';
        assert(!is_path_sep(x[j]));
    }
    if x.contains('/') {
        let j = choose|j: int| 0 <= j < x.len() && x[j] == '/';
        assert(!is_path_sep(x[j]));
    }
}

proof fn lemma_join_no_backslash(s: Seq<Seq<char>>)
    requires
        plain_segments(s),
    ensures
        !join_slash(s).contains('\\'),
{
    assert forall|i: int| 0 <= i < s.len() implies !(#[trigger] s[i]).contains('\\') by {
        lemma_no_sep_chars(s[i]);
    }
    lemma_join_no_char(s, '\\');
}

/// How a text made of a kept prefix, a drive, an optional `/` and a join of
/// good segments is read back: the same prefix, drive and segments.
proof fn lemma_parse_canonical_form(p: Seq<char>, d: Seq<char>, slash: bool, s: Seq<Seq<char>>)
    requires
        is_kept_prefix_value(p),
        d.len() == 0 || (is_drive_value(d) && p.len() == 0),
        all_good(s),
        p.len() == 0 && d.len() == 0 ==> !slash,
        d.len() == 0 && !slash && s.len() > 0 && s[0] != parent_dir() ==> !has_drive(
            p + join_slash(s),
        ),
        (p + d + opt_slash(slash) + join_slash(s)).len() > 0,
    ensures
        root_prefix(p + d + opt_slash(slash) + join_slash(s)) == p,
        kept_prefix(p + d + opt_slash(slash) + join_slash(s)) == p,
        drive_text(p + d + opt_slash(slash) + join_slash(s)) == d,
        path_segments(path_body(p + d + opt_slash(slash) + join_slash(s))) == s,
{
    lemma_good_plain(s);
    let j = join_slash(s);
    let rest = d + opt_slash(slash) + j;
    let c = p + d + opt_slash(slash) + j;
    assert(c =~= p + rest);
    lemma_join_no_backslash(s);
    assert(!rest.contains('\\')) by {
        if rest.contains('\\') {
            let k = choose|k: int| 0 <= k < rest.len() && rest[k] == '\\';
            if k < d.len() {
                assert(d[k] == '\\');
                assert(k == 0 || k == 1);
            } else if k < d.len() + opt_slash(slash).len() {
                assert(opt_slash(slash)[k - d.len()] == '\\');
            } else {
                assert(j[k - d.len() - opt_slash(slash).len()] == '\\');
            }
        }
    }
    if s.len() > 0 {
        lemma_join_starts_with_first(s);
        assert(good_segment(s[0]));
        assert(s.contains(s[0]));
    }
    // The root prefix.
    if p == unc_prefix() {
        assert(c.take(7) =~= unc_prefix());
    } else if p == long_prefix() {
        assert(c.take(3) =~= long_prefix());
        assert(!starts_with(c, unc_prefix())) by {
            if starts_with(c, unc_prefix()) {
                assert(c.take(7)[6] == '\\');
                assert(c[6] == rest[3]);
                assert(rest.contains(rest[3]));
            }
        }
    } else if p == shared_prefix() {
        assert(c.take(2) =~= shared_prefix());
        assert(!starts_with(c, unc_prefix())) by {
            if starts_with(c, unc_prefix()) {
                assert(c.take(7)[1] == unc_prefix()[1]);
            }
        }
        assert(!starts_with(c, long_prefix())) by {
            if starts_with(c, long_prefix()) {
                assert(c.take(3)[1] == long_prefix()[1]);
            }
        }
    } else if p == slash_root() {
        assert(c[0] == '/');
        assert(!starts_with(c, unc_prefix())) by {
            if starts_with(c, unc_prefix()) {
                assert(c.take(7)[0] == unc_prefix()[0]);
            }
        }
        assert(!starts_with(c, long_prefix())) by {
            if starts_with(c, long_prefix()) {
                assert(c.take(3)[0] == long_prefix()[0]);
            }
        }
        assert(!starts_with(c, shared_prefix())) by {
            if starts_with(c, shared_prefix()) {
                assert(c.take(2)[0] == shared_prefix()[0]);
            }
        }
        assert(!starts_with(c, backslash_rel_root()) && !starts_with(c, slash_rel_root())) by {
            if starts_with(c, backslash_rel_root()) || starts_with(c, slash_rel_root()) {
                assert(c.take(2)[0] == '.');
            }
        }
        assert(c.take(1) =~= slash_root());
    } else {
        assert(p =~= Seq::<char>::empty());
        assert(c =~= rest);
        // The first character is a drive letter, or that of the first segment.
        if d.len() > 0 {
            assert(c[0] == d[0]);
            assert(c[0] != '\\' && c[0] != '/' && c[0] != '.');
        } else {
            assert(!slash);
            assert(c =~= j);
            assert(s.len() > 0);
            assert(c[0] == s[0][0]);
            assert(!is_path_sep(s[0][0]));
            if c[0] == '.' && c.len() > 1 {
                if s[0].len() >= 2 {
                    assert(c[1] == s[0][1]);
                    assert(!is_path_sep(s[0][1]));
                } else {
                    assert(s[0] =~= cur_dir());
                }
            }
        }
        assert(!starts_with(c, unc_prefix())) by {
            if starts_with(c, unc_prefix()) {
                assert(c.take(7)[0] == unc_prefix()[0]);
            }
        }
        assert(!starts_with(c, long_prefix())) by {
            if starts_with(c, long_prefix()) {
                assert(c.take(3)[0] == long_prefix()[0]);
            }
        }
        assert(!starts_with(c, shared_prefix())) by {
            if starts_with(c, shared_prefix()) {
                assert(c.take(2)[0] == shared_prefix()[0]);
            }
        }
        assert(!starts_with(c, backslash_rel_root()) && !starts_with(c, slash_rel_root())) by {
            if starts_with(c, backslash_rel_root()) || starts_with(c, slash_rel_root()) {
                assert(c.take(2)[0] == '.');
                assert(c.take(2)[1] == '\\' || c.take(2)[1] == '/');
            }
        }
        assert(!starts_with(c, slash_root())) by {
            if starts_with(c, slash_root()) {
                assert(c.take(1)[0] == '/');
            }
        }
    }
    assert(root_prefix(c) == p);
    assert(after_prefix(c) =~= rest);
    // The drive.
    if d.len() > 0 {
        assert(rest[0] == d[0] && rest[1] == d[1]);
        assert(has_drive(c));
        assert(c.take(2) =~= d);
        assert(path_body(c) =~= opt_slash(slash) + j);
    } else {
        assert(rest =~= opt_slash(slash) + j);
        assert(!has_drive(c)) by {
            if has_drive(c) {
                if slash {
                    assert(rest[0] == '/');
                } else if s.len() > 0 && s[0] == parent_dir() {
                    assert(rest =~= j);
                    assert(j[0] == s[0][0]);
                } else {
                    assert(c =~= p + j);
                }
            }
        }
        assert(path_body(c) =~= opt_slash(slash) + j);
    }
    // The segments.
    lemma_segments_of_join(s);
    if slash {
        let b = opt_slash(slash) + j;
        assert(b[0] == '/');
        assert(b.drop_first() =~= j);
        assert(segments_from(b, seq![]) == Seq::<Seq<char>>::empty() + segments_from(j, seq![]));
        assert(Seq::<Seq<char>>::empty() + segments_from(j, seq![]) =~= segments_from(j, seq![]));
    } else {
        assert(opt_slash(slash) + j =~= j);
    }
}

/// Canonicalizing a canonical form made of a kept prefix, a drive, an
/// optional `/` and a non-empty join of good segments works on those parts
/// again.
proof fn lemma_second_pass(p: Seq<char>, d: Seq<char>, slash: bool, s: Seq<Seq<char>>)
    requires
        is_kept_prefix_value(p),
        d.len() == 0 || (is_drive_value(d) && p.len() == 0),
        all_good(s),
        p.len() == 0 && d.len() == 0 ==> !slash,
        d.len() == 0 && !slash && s.len() > 0 && s[0] != parent_dir() ==> !has_drive(
            p + join_slash(s),
        ),
        s.len() > 0,
    ensures
        canonical(p + d + opt_slash(slash) + join_slash(s)) == (if s.len() == 1 && s[0] != parent_dir() {
            p + s[0]
        } else {
            resolved_tail(p, d, s, false)
        }),
{
    lemma_join_starts_with_first(s);
    assert(good_segment(s[0]));
    let c = p + d + opt_slash(slash) + join_slash(s);
    assert(c.len() >= join_slash(s).len());
    lemma_parse_canonical_form(p, d, slash, s);
    lemma_good_plain(s);
    lemma_without_cur_dirs_plain(s);
}

/// `.` after a kept prefix and no drive is read back as that prefix and the
/// segment `.`.
proof fn lemma_canonical_prefix_dot(p: Seq<char>)
    requires
        is_kept_prefix_value(p),
    ensures
        canonical(p + cur_dir()) == p + cur_dir(),
{
    let c = p + cur_dir();
    if p.len() == 0 {
        assert(c =~= cur_dir());
        lemma_canonical_dot();
    } else {
        // Read as a prefix followed by the one-character segment `.`.
        let x = cur_dir();
        assert(!x.contains('\\')) by {
            if x.contains('\\') {
                let k = choose|k: int| 0 <= k < x.len() && x[k] == '\\';
            }
        }
        if p == unc_prefix() {
            assert(c.take(7) =~= unc_prefix());
        } else if p == long_prefix() {
            assert(c.take(3) =~= long_prefix());
            assert(c.len() == 4);
        } else if p == shared_prefix() {
            assert(c.take(2) =~= shared_prefix());
            assert(!starts_with(c, unc_prefix())) by {
                if starts_with(c, unc_prefix()) {
                    assert(c.take(7)[1] == unc_prefix()[1]);
                }
            }
            assert(!starts_with(c, long_prefix())) by {
                if starts_with(c, long_prefix()) {
                    assert(c.take(3)[1] == long_prefix()[1]);
                }
            }
        } else {
            assert(p == slash_root());
            assert(!starts_with(c, unc_prefix())) by {
                if starts_with(c, unc_prefix()) {
                    assert(c.take(7)[0] == unc_prefix()[0]);
                }
            }
            assert(!starts_with(c, long_prefix())) by {
                if starts_with(c, long_prefix()) {
                    assert(c.take(3)[0] == long_prefix()[0]);
                }
            }
            assert(!starts_with(c, shared_prefix())) by {
                if starts_with(c, shared_prefix()) {
                    assert(c.take(2)[0] == shared_prefix()[0]);
                }
            }
            assert(!starts_with(c, backslash_rel_root()) && !starts_with(c, slash_rel_root())) by {
                if starts_with(c, backslash_rel_root()) || starts_with(c, slash_rel_root()) {
                    assert(c.take(2)[0] == '.');
                }
            }
            assert(c.take(1) =~= slash_root());
        }
        assert(root_prefix(c) == p);
        assert(after_prefix(c) =~= x);
        assert(!has_drive(c));
        assert(path_body(c) == x);
        assert(plain_segments(seq![x])) by {
            assert(has_no_sep(x));
        }
        lemma_segments_of_join(seq![x]);
        assert(join_slash(seq![x]) == x);
        assert(kept_prefix(c) == p);
    }
}

/// The canonical form of `path` reads back in the same shape. Two writings of
/// the canonical form of a path with a root prefix or a drive are read back
/// differently: a single segment written after the root separator (`/a/.`
/// gives `//a`, which gives `/a`), and `..` segments that cancel every segment
/// before two or more plain ones (`/a/../b/c` gives `/b/c`, which gives
/// `//b/c`); a lone segment after a drive also loses the drive on the second
/// reading (`C:a/../b` gives `C:b`, which gives `b`).
pub open spec fn stable_root_form(path: Seq<char>) -> bool {
    let head = kept_prefix(path) + drive_text(path);
    let comps = path_segments(path_body(path));
    let kept = without_cur_dirs(comps);
    ||| head.len() == 0
    ||| comps.len() == 0
    ||| comps.len() == 1 && comps[0] != parent_dir()
    ||| !kept.contains(parent_dir()) && kept.len() != 1
    ||| kept.contains(parent_dir()) && leading_parents(kept) == kept.len()
    ||| kept.contains(parent_dir()) && {
        let r = leading_parents(kept);
        let st = kept.take(r as int) + resolve_onto(seq![], kept.skip(r as int));
        ||| st.contains(parent_dir())
        ||| st.len() == 0
        ||| st.len() == 1 && drive_text(path).len() == 0
    }
}

/// A text that reads as having a drive which is a whole first segment `X:`,
/// followed by nothing or by two or more segments: reading it again keeps
/// that drive.
pub open spec fn whole_segment_drive(c: Seq<char>) -> bool {
    (c.len() == 2 || c[2] == '/') && path_segments(path_body(c)).len() != 1
}

/// A join of good segments without `..` that reads as having a whole-segment
/// drive is read back as itself.
proof fn lemma_fixed_read_drive(s: Seq<Seq<char>>)
    requires
        s.len() > 0,
        all_good(s),
        !s.contains(parent_dir()),
        has_drive(join_slash(s)),
        whole_segment_drive(join_slash(s)),
    ensures
        canonical(join_slash(s)) == join_slash(s),
{
    let c = join_slash(s);
    lemma_good_plain(s);
    lemma_join_plain_start(s);
    lemma_join_starts_with_first(s);
    assert(good_segment(s[0]));
    assert(after_prefix(c) =~= c);
    if s[0].len() == 1 {
        if s.len() > 1 {
            assert(c[1] == '/');
        } else {
            assert(c.len() == 1);
        }
    }
    if c.len() == 2 {
        assert(path_body(c) =~= Seq::<char>::empty());
        assert(path_segments(path_body(c)) =~= Seq::<Seq<char>>::empty());
    } else {
        assert(c[2] == '/');
        assert(s[0].len() == 2) by {
            if s[0].len() > 2 {
                assert(c[2] == s[0][2]);
                assert(!is_path_sep(s[0][2]));
            }
        }
        assert(s.len() > 1) by {
            if s.len() == 1 {
                assert(c == s[0]);
            }
        }
        let d = s[0];
        let s1 = s.drop_first();
        assert(is_drive_value(d)) by {
            assert(d[0] == c[0] && d[1] == c[1]);
        }
        assert(all_good(s1)) by {
            assert forall|i: int| 0 <= i < s1.len() implies good_segment(#[trigger] s1[i]) by {
                assert(s1[i] == s[i + 1]);
            }
        }
        assert(!s1.contains(parent_dir())) by {
            if s1.contains(parent_dir()) {
                let k = choose|k: int| 0 <= k < s1.len() && s1[k] == parent_dir();
                assert(s[k + 1] == parent_dir());
            }
        }
        lemma_join_concat(seq![d], s1);
        assert(seq![d] + s1 =~= s);
        assert(join_slash(seq![d]) == d);
        let e = Seq::<char>::empty();
        assert(e + d + opt_slash(true) + join_slash(s1) =~= c);
        lemma_parse_canonical_form(e, d, true, s1);
        lemma_second_pass(e, d, true, s1);
        assert(resolved_tail(e, d, s1, false) =~= c);
    }
}

/// Without `..` segments, the canonical form written from a kept prefix, a
/// drive and good segments reads back as itself, unless a single segment
/// follows a root or drive.
proof fn lemma_idempotent_without_parents(p: Seq<char>, d: Seq<char>, kept: Seq<Seq<char>>)
    requires
        is_kept_prefix_value(p),
        d.len() == 0 || (is_drive_value(d) && p.len() == 0),
        all_good(kept),
        !kept.contains(parent_dir()),
        (p + d).len() > 0 ==> kept.len() != 1,
        d.len() == 0 && has_drive(resolved_tail(p, d, kept, false)) ==> p.len() == 0
            && whole_segment_drive(resolved_tail(p, d, kept, false)),
    ensures
        canonical(resolved_tail(p, d, kept, false)) == resolved_tail(p, d, kept, false),
{
    let head = p + d;
    let c = resolved_tail(p, d, kept, false);
    if head.len() == 0 {
        assert(p =~= Seq::<char>::empty() && d =~= Seq::<char>::empty());
        assert(c =~= join_slash(kept));
        if kept.len() > 0 && has_drive(c) {
            lemma_fixed_read_drive(kept);
        } else if kept.len() > 0 {
            assert(p + d + opt_slash(false) + join_slash(kept) =~= c);
            assert(p + join_slash(kept) =~= c);
            lemma_second_pass(p, d, false, kept);
            if kept.len() == 1 {
                assert(kept.contains(kept[0]));
                assert(c == kept[0]);
                assert(p + kept[0] =~= kept[0]);
            } else {
                assert(resolved_tail(p, d, kept, false) =~= join_slash(kept));
            }
        }
    } else {
        assert(c =~= head.push('/') + join_slash(kept));
        assert(p + d + opt_slash(true) + join_slash(kept) =~= c);
        if kept.len() == 0 {
            lemma_parse_canonical_form(p, d, true, kept);
            assert(canonical(c) == c);
        } else {
            lemma_second_pass(p, d, true, kept);
        }
    }
}

/// With `..` segments, the canonical form written from a kept prefix, a
/// drive and good segments reads back as itself when it is written in a
/// stable shape.
#[verifier::rlimit(40)]
proof fn lemma_idempotent_with_parents(p: Seq<char>, d: Seq<char>, kept: Seq<Seq<char>>)
    requires
        is_kept_prefix_value(p),
        d.len() == 0 || (is_drive_value(d) && p.len() == 0),
        all_good(kept),
        kept.contains(parent_dir()),
        (p + d).len() > 0 ==> {
            let r = leading_parents(kept);
            let st = kept.take(r as int) + resolve_onto(seq![], kept.skip(r as int));
            ||| r == kept.len()
            ||| st.contains(parent_dir())
            ||| st.len() == 0
            ||| st.len() == 1 && d.len() == 0
        },
        d.len() == 0 && has_drive(resolved_tail(p, d, kept, false)) ==> p.len() == 0
            && whole_segment_drive(resolved_tail(p, d, kept, false)),
    ensures
        canonical(resolved_tail(p, d, kept, false)) == resolved_tail(p, d, kept, false),
{
    let c = resolved_tail(p, d, kept, false);
    let r = leading_parents(kept);
    lemma_leading_parents_facts(kept);
    if r == kept.len() {
        assert(c =~= p + d + join_slash(kept));
        assert(p + d + opt_slash(false) + join_slash(kept) =~= c);
        assert(d.len() == 0 ==> p + join_slash(kept) =~= c);
        assert(kept.len() == 1 ==> kept[0] == parent_dir());
        lemma_second_pass(p, d, false, kept);
        assert(resolved_tail(p, d, kept, false) =~= p + d + join_slash(kept));
    } else {
        let tail = kept.skip(r as int);
        let rest = resolve_onto(seq![], tail);
        assert(all_good(tail)) by {
            assert forall|i: int| 0 <= i < tail.len() implies good_segment(#[trigger] tail[i]) by {
                assert(tail[i] == kept[r + i]);
            }
        }
        lemma_resolve_shape(seq![], tail);
        let head = kept.take(r as int);
        let st = head + rest;
        lemma_join_concat(head, rest);
        let t = p + d + join_slash(head) + parents_rest_sep(r, rest) + join_slash(rest);
        assert(t =~= p + d + join_slash(st));
        assert(all_good(st)) by {
            assert forall|i: int| 0 <= i < st.len() implies good_segment(#[trigger] st[i]) by {
                if i < r {
                    assert(st[i] == kept[i]);
                } else {
                    assert(st[i] == rest[i - r]);
                }
            }
        }
        assert(parents_first(st)) by {
            assert forall|i: int, j: int|
                0 <= i < j < st.len() && (#[trigger] st[i]) != parent_dir() implies (#[trigger] st[j])
                != parent_dir() by {
                if i < r {
                    assert(st[i] == kept[i]);
                } else {
                    assert(st[j] == rest[j - r]);
                }
            }
        }
        if t.len() == 0 {
            assert(c == cur_dir());
            lemma_canonical_dot();
        } else {
            assert(c == t);
            assert(p + d + opt_slash(false) + join_slash(st) =~= c);
            assert(d.len() == 0 ==> p + join_slash(st) =~= c);
            if st.len() == 0 {
                lemma_parse_canonical_form(p, d, false, st);
                assert(canonical(c) == c);
            } else if d.len() == 0 && st[0] != parent_dir() && has_drive(c) {
                assert(r == 0) by {
                    if r > 0 {
                        assert(st[0] == kept[0]);
                    }
                }
                assert(!st.contains(parent_dir())) by {
                    if st.contains(parent_dir()) {
                        let k = choose|k: int| 0 <= k < st.len() && st[k] == parent_dir();
                        assert(st[0] != parent_dir());
                    }
                }
                assert(c =~= join_slash(st));
                lemma_fixed_read_drive(st);
            } else {
                lemma_idempotent_resolved(p, d, st);
            }
        }
    }
}

/// A canonical form written from a kept prefix, a drive and a non-empty run
/// of good segments with every `..` first reads back as itself when it has
/// `..` segments, or no root and drive, or a single segment and no drive.
proof fn lemma_idempotent_resolved(p: Seq<char>, d: Seq<char>, st: Seq<Seq<char>>)
    requires
        is_kept_prefix_value(p),
        d.len() == 0 || (is_drive_value(d) && p.len() == 0),
        all_good(st),
        parents_first(st),
        st.len() > 0,
        (p + d).len() > 0 ==> (st.contains(parent_dir()) || st.len() == 1 && d.len() == 0),
        d.len() == 0 && st[0] != parent_dir() ==> !has_drive(p + join_slash(st)),
    ensures
        canonical(p + d + opt_slash(false) + join_slash(st)) == p + d + opt_slash(false) + join_slash(st),
{
    let c = p + d + opt_slash(false) + join_slash(st);
    assert(c =~= p + d + join_slash(st));
    lemma_second_pass(p, d, false, st);
    if st.len() == 1 && st[0] != parent_dir() {
        assert(!st.contains(parent_dir())) by {
            if st.contains(parent_dir()) {
                let k = choose|k: int| 0 <= k < st.len() && st[k] == parent_dir();
            }
        }
        assert(d =~= Seq::<char>::empty());
        assert(join_slash(st) == st[0]);
        assert(c =~= p + st[0]);
    } else if !st.contains(parent_dir()) {
        assert(p =~= Seq::<char>::empty() && d =~= Seq::<char>::empty());
        assert(resolved_tail(p, d, st, false) =~= join_slash(st));
        assert(c =~= join_slash(st));
    } else {
        let r2 = leading_parents(st);
        lemma_leading_parents_facts(st);
        if r2 == st.len() {
            assert(resolved_tail(p, d, st, false) =~= p + d + join_slash(st));
        } else {
            let tail2 = st.skip(r2 as int);
            assert forall|i: int| 0 <= i < tail2.len() implies #[trigger] tail2[i] != parent_dir() by {
                assert(tail2[i] == st[r2 + i]);
                if i > 0 {
                    assert(st[r2 as int] != parent_dir());
                }
            }
            lemma_resolve_no_parents(seq![], tail2);
            assert(seq![] + tail2 =~= tail2);
            lemma_join_concat(st.take(r2 as int), tail2);
            assert(st.take(r2 as int) + tail2 =~= st);
            assert(st.take(r2 as int).len() == r2);
            let t2 = p + d + join_slash(st.take(r2 as int)) + parents_rest_sep(r2, tail2) + join_slash(
                tail2,
            );
            assert(t2 =~= p + d + join_slash(st));
            assert(resolved_tail(p, d, st, false) == t2);
        }
    }
}

/// The canonical form reads as having a drive only where it writes one (the
/// path has a drive, and its canonical form is not a lone segment after the
/// root prefix, which drops the drive), or where a drive-like first segment
/// reads back the same: without a root prefix, a whole first segment `X:`
/// followed by nothing or by two or more segments. Other drive-like first
/// segments are read differently the second time (`.//C:x/a` gives `C:x/a`,
/// which gives `C:/x/a`; `a/../C:/b` gives `C:/b`, which gives `b`).
pub open spec fn drive_reads_back(path: Seq<char>) -> bool {
    let comps = path_segments(path_body(path));
    let c = canonical(path);
    has_drive(c) && !(has_drive(path) && !(comps.len() == 1 && comps[0] != parent_dir())) ==> kept_prefix(
        path,
    ).len() == 0 && whole_segment_drive(c)
}

/// Canonicalizing a canonical form again changes nothing, for every path
/// whose drive letter (if any) starts it, whose canonical form reads back
/// with the drive it shows (`drive_reads_back`), and whose
/// canonical form is written in a stable shape (`stable_root_form`). Where the
/// drive follows a root prefix, its text is taken from the prefix instead
/// (`\\C:\a\b` gives `\\\\/a/b`), and a segment that reads as a drive is
/// taken for one (`\C:\b` gives `C:/b`, which gives `b`).
pub proof fn law_canonical_idempotent(path: Seq<char>)
    requires
        has_drive(path) ==> root_prefix(path).len() == 0,
        drive_reads_back(path),
        stable_root_form(path),
    ensures
        canonical(canonical(path)) == canonical(path),
{
    if path.len() == 0 {
        return;
    }
    let p = kept_prefix(path);
    let d = drive_text(path);
    let body = path_body(path);
    let comps = path_segments(body);
    let kept = without_cur_dirs(comps);
    assert(is_kept_prefix_value(p)) by {
        if root_prefix(path) == backslash_rel_root() || root_prefix(path) == slash_rel_root() {
            assert(p =~= Seq::<char>::empty());
        }
    }
    if has_drive(path) {
        assert(root_prefix(path) =~= Seq::<char>::empty());
        assert(after_prefix(path) =~= path);
        assert(p =~= Seq::<char>::empty());
        assert(d == path.take(2));
        assert(d[0] == path[0] && d[1] == path[1]);
        assert(is_drive_value(d));
    } else {
        assert(d =~= Seq::<char>::empty());
    }
    assert(!Seq::<char>::empty().contains(':'));
    lemma_path_segments_plain(body, seq![]);
    lemma_without_cur_dirs_plain(comps);
    lemma_parent_dir_good();
    assert(all_good(kept)) by {
        assert forall|i: int| 0 <= i < kept.len() implies good_segment(#[trigger] kept[i]) by {
            let x = kept[i];
            let j = choose|j: int| 0 <= j < comps.len() && comps[j] == x;
            assert(comps[j].len() > 0 && has_no_sep(comps[j]));
        }
    }
    let c = canonical(path);
    if comps.len() == 0 {
        assert(c == path);
    } else if comps.len() == 1 && comps[0] != parent_dir() {
        assert(c == p + comps[0]);
        if comps[0] == cur_dir() {
            lemma_canonical_prefix_dot(p);
        } else {
            assert(comps.drop_first() =~= seq![]);
            assert(without_cur_dirs(comps.drop_first()) =~= seq![]);
            assert(kept =~= seq![comps[0]]);
            assert(good_segment(kept[0]));
            let s = seq![comps[0]];
            assert(all_good(s));
            assert(join_slash(s) == comps[0]);
            assert(p + Seq::<char>::empty() + opt_slash(false) + join_slash(s) =~= c);
            assert(p + join_slash(s) =~= c);
            if has_drive(c) {
                assert(p =~= Seq::<char>::empty());
                assert(c =~= join_slash(s));
                assert(!s.contains(parent_dir())) by {
                    if s.contains(parent_dir()) {
                        let k = choose|k: int| 0 <= k < s.len() && s[k] == parent_dir();
                    }
                }
                lemma_fixed_read_drive(s);
            } else {
                lemma_second_pass(p, Seq::<char>::empty(), false, s);
            }
        }
    } else {
        assert(c == resolved_tail(p, d, kept, false));
        if !kept.contains(parent_dir()) {
            lemma_idempotent_without_parents(p, d, kept);
        } else {
            lemma_idempotent_with_parents(p, d, kept);
        }
    }
}

/// What a join of plain segments, none of them `.`, starts with: not a root prefix.
proof fn lemma_join_plain_start(segs: Seq<Seq<char>>)
    requires
        plain_segments(segs),
        segs.len() > 0,
        !segs.contains(cur_dir()),
    ensures
        root_prefix(join_slash(segs)) == Seq::<char>::empty(),
{
    lemma_join_starts_with_first(segs);
    let c = join_slash(segs);
    let f = segs[0];
    assert(segs.contains(f));
    assert(f.len() > 0 && has_no_sep(f));
    assert(c[0] == f[0]);
    assert(!is_path_sep(c[0]));
    assert(!starts_with(c, unc_prefix())) by {
        if starts_with(c, unc_prefix()) {
            assert(c.take(7)[0] == unc_prefix()[0]);
        }
    }
    assert(!starts_with(c, long_prefix())) by {
        if starts_with(c, long_prefix()) {
            assert(c.take(3)[0] == long_prefix()[0]);
        }
    }
    assert(!starts_with(c, shared_prefix())) by {
        if starts_with(c, shared_prefix()) {
            assert(c.take(2)[0] == shared_prefix()[0]);
        }
    }
    assert(!starts_with(c, slash_root())) by {
        if starts_with(c, slash_root()) {
            assert(c.take(1)[0] == slash_root()[0]);
        }
    }
    assert(!starts_with(c, backslash_rel_root()) && !starts_with(c, slash_rel_root())) by {
        if starts_with(c, backslash_rel_root()) || starts_with(c, slash_rel_root()) {
            assert(c.take(2)[1] == '\\' || c.take(2)[1] == '/');
            assert(c[1] == '\\' || c[1] == '/');
            assert(c[0] == '.');
            if f.len() >= 2 {
                assert(c[1] == f[1]);
                assert(!is_path_sep(f[1]));
            } else {
                assert(f =~= cur_dir());
            }
        }
    }
}

proof fn lemma_join_starts_with_first(segs: Seq<Seq<char>>)
    requires
        segs.len() > 0,
    ensures
        join_slash(segs).len() >= segs[0].len(),
        forall|i: int| 0 <= i < segs[0].len() ==> join_slash(segs)[i] == #[trigger] segs[0][i],
        segs.len() > 1 && segs[0].len() < join_slash(segs).len() ==> join_slash(segs)[segs[0].len() as int] == '/',
    decreases segs.len(),
{
    if segs.len() > 1 {
        let init = segs.drop_last();
        lemma_join_starts_with_first(init);
        assert(init[0] == segs[0]);
        let j = join_slash(init).push('/') + segs.last();
        assert(forall|i: int| 0 <= i < join_slash(init).len() ==> j[i] == join_slash(init)[i]);
        if init.len() == 1 {
            assert(join_slash(init) == segs[0]);
            assert(j[segs[0].len() as int] == '/');
        }
    }
}

proof fn lemma_join_no_char(segs: Seq<Seq<char>>, c: char)
    requires
        c != '/',
        forall|i: int| 0 <= i < segs.len() ==> !(#[trigger] segs[i]).contains(c),
    ensures
        !join_slash(segs).contains(c),
    decreases segs.len(),
{
    if segs.len() > 1 {
        let init = segs.drop_last();
        assert forall|i: int| 0 <= i < init.len() implies !(#[trigger] init[i]).contains(c) by {
            assert(init[i] == segs[i]);
        }
        lemma_join_no_char(init, c);
        let a = join_slash(init).push('/');
        let b = segs.last();
        assert(!b.contains(c));
        if (a + b).contains(c) {
            let k = choose|k: int| 0 <= k < (a + b).len() && (a + b)[k] == c;
            if k < a.len() {
                if k < join_slash(init).len() {
                    assert(join_slash(init)[k] == c);
                }
            } else {
                assert(b[k - a.len()] == c);
            }
        }
    } else if segs.len() == 1 {
        assert(!segs[0].contains(c));
    }
}

// ---------------------------------------------------------------------------
// A maximal-length Windows path for exercising the segment splitter.
// ---------------------------------------------------------------------------

/// `\\?\C:\`
pub open spec fn max_path_prefix() -> Seq<char> {
    seq!['\\', '\\', '?', '\\', 'C', ':', '\\']
}

/// `n` zero characters.
pub open spec fn zeros(n: nat) -> Seq<char> {
    Seq::new(n, |_i: int| '0')
}

/// The decimal digits of `n`, padded on the left with zeros to at least `width`.
pub open spec fn padded_decimal(n: nat, width: nat) -> Seq<char> {
    let d = decimal_chars(n);
    if d.len() < width {
        zeros((width - d.len()) as nat) + d
    } else {
        d
    }
}

/// Segment `i`: `seg_`, `i` in eleven digits, and a backslash.
pub open spec fn seg_text(i: nat) -> Seq<char> {
    seq!['s', 'e', 'g', '_'] + padded_decimal(i, 11) + seq!['\\']
}

/// Segments `0` to `k - 1`, one after the other.
pub open spec fn segs_text(k: nat) -> Seq<char>
    decreases k,
{
    if k == 0 {
        seq![]
    } else {
        segs_text((k - 1) as nat) + seg_text((k - 1) as nat)
    }
}

proof fn lemma_decimal_chars_len(n: nat)
    ensures
        1 <= decimal_chars(n).len(),
        n < 10 ==> decimal_chars(n).len() == 1,
        n < 100 ==> decimal_chars(n).len() <= 2,
        n < 1000 ==> decimal_chars(n).len() <= 3,
        n < 10000 ==> decimal_chars(n).len() <= 4,
    decreases n,
{
    if n >= 10 {
        lemma_decimal_chars_len(n / 10);
    }
}

proof fn lemma_seg_text_len(i: nat)
    requires
        i < 10000,
    ensures
        seg_text(i).len() == 16,
{
    lemma_decimal_chars_len(i);
}

/// `n` `a` characters.
pub open spec fn a_padding(n: nat) -> Seq<char> {
    Seq::new(n, |_i: int| 'a')
}

/// A path of the longest kind Windows accepts, exactly 32767 characters:
/// `\\?\C:\`, then as many 16-character `seg_` segments (numbered in eleven
/// digits and ended by a backslash) as fit, then `a` up to the full length.
pub fn generate_max_windows_path() -> (path: String)
    ensures
        path@ == max_path_prefix() + segs_text(2047) + a_padding(8),
        path@.len() == 32767,
{
    let mut path = String::new();
    let prefix = vec!['\\', '\\', '?', '\\', 'C', ':', '\\'];
    append_chars(&mut path, &prefix, 0, 7);
    assert(prefix@.subrange(0, 7) =~= max_path_prefix());
    assert(path@ =~= max_path_prefix() + segs_text(0));
    let mut len: usize = 7;
    let mut i: usize = 0;
    while len + 16 <= 32767
        invariant
            i <= 2047,
            len == 7 + 16 * i,
            path@ == max_path_prefix() + segs_text(i as nat),
            path@.len() == len,
        decreases 2047 - i,
    {
        let ghost before = path@;
        let digits = decimal_string(i);
        proof {
            lemma_decimal_chars_len(i as nat);
            lemma_seg_text_len(i as nat);
        }
        push_char(&mut path, 's');
        push_char(&mut path, 'e');
        push_char(&mut path, 'g');
        push_char(&mut path, '_');
        let mut z: usize = 0;
        let zero_count = 11 - str_len_chars(&digits);
        while z < zero_count
            invariant
                z <= zero_count,
                path@ == before + seq!['s', 'e', 'g', '_'] + zeros(z as nat),
            decreases zero_count - z,
        {
            push_char(&mut path, '0');
            assert(zeros((z + 1) as nat) =~= zeros(z as nat).push('0'));
            z = z + 1;
        }
        path.append(digits.as_str());
        push_char(&mut path, '\\');
        assert(padded_decimal(i as nat, 11) =~= zeros(zero_count as nat) + digits@);
        assert(path@ =~= before + seg_text(i as nat));
        len = len + 16;
        i = i + 1;
    }
    assert(i == 2047);
    let ghost segs = path@;
    while len < 32767
        invariant
            len <= 32767,
            segs == max_path_prefix() + segs_text(2047),
            segs.len() == 32759,
            path@ == segs + a_padding((len - 32759) as nat),
            path@.len() == len,
        decreases 32767 - len,
    {
        push_char(&mut path, 'a');
        len = len + 1;
        assert(path@ =~= segs + a_padding((len - 32759) as nat));
    }
    path
}

/// The number of characters of a string holding at most four.
fn str_len_chars(s: &String) -> (n: usize)
    requires
        s@.len() <= 4,
    ensures
        n == s@.len(),
{
    str_chars(s.as_str()).len()
}

} // verus!

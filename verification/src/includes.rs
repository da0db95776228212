use vstd::prelude::*;
use crate::path::join_slash;
use crate::text::push_char;

verus! {

/// What std's `str::to_lowercase` returns for `s`.
pub uninterp spec fn lowercase_text(s: Seq<char>) -> Seq<char>;

/// `s.to_lowercase()`: its result is named, not stated (Unicode case mapping).
#[verifier::external_body]
fn lowercase(s: &str) -> (r: String)
    ensures
        r@ == lowercase_text(s@),
{
    s.to_lowercase()
}

/// The characters of each string, in order.
pub open spec fn string_texts(v: Seq<String>) -> Seq<Seq<char>> {
    v.map_values(|x: String| x@)
}

/// Two path components name the same thing when their lowercase forms agree.
pub open spec fn same_component(a: Seq<char>, b: Seq<char>) -> bool {
    lowercase_text(a) == lowercase_text(b)
}

/// How many leading components the two paths share, ignoring case.
pub open spec fn common_components(a: Seq<Seq<char>>, b: Seq<Seq<char>>) -> nat
    decreases a.len(),
{
    if a.len() > 0 && b.len() > 0 && same_component(a[0], b[0]) {
        1 + common_components(a.drop_first(), b.drop_first())
    } else {
        0
    }
}

/// `n` copies of `../`.
pub open spec fn parent_steps(n: nat) -> Seq<char>
    decreases n,
{
    if n == 0 {
        seq![]
    } else {
        parent_steps((n - 1) as nat) + seq!['.', '.', '/']
    }
}

/// The path of `input` relative to `base`, both given as the components of an
/// absolute path: `.` when they are the same path; otherwise one `../` for each
/// component of `base` after the shared ones, then the rest of `input` joined
/// with `/`.
pub open spec fn relative_include_text(input: Seq<Seq<char>>, base: Seq<Seq<char>>) -> Seq<char> {
    if input == base {
        seq!['.']
    } else {
        let c = common_components(input, base);
        parent_steps((base.len() - c) as nat) + join_slash(input.skip(c as int))
    }
}

fn same_components(a: &Vec<String>, b: &Vec<String>) -> (r: bool)
    ensures
        r == (string_texts(a@) == string_texts(b@)),
{
    if a.len() != b.len() {
        assert(string_texts(a@).len() != string_texts(b@).len());
        return false;
    }
    let mut i: usize = 0;
    while i < a.len()
        invariant
            i <= a@.len() == b@.len(),
            forall|j: int| 0 <= j < i ==> a@[j]@ == b@[j]@,
        decreases a@.len() - i,
    {
        if a[i] != b[i] {
            assert(string_texts(a@)[i as int] != string_texts(b@)[i as int]);
            return false;
        }
        i = i + 1;
    }
    assert(string_texts(a@) =~= string_texts(b@));
    true
}

fn append_str_chars(out: &mut String, s: &String)
    ensures
        final(out)@ == old(out)@ + s@,
{
    out.append(s.as_str());
}

/// How many leading components the two lists share, compared exactly.
pub open spec fn common_prefix_len(a: Seq<Seq<char>>, b: Seq<Seq<char>>) -> nat
    decreases a.len(),
{
    if a.len() > 0 && b.len() > 0 && a[0] == b[0] {
        1 + common_prefix_len(a.drop_first(), b.drop_first())
    } else {
        0
    }
}

/// The path of `input` relative to `base` when components are compared by
/// their folded forms `input_folded` and `base_folded`: `.` when the paths are
/// the same; otherwise one `../` for each component of `base` after the shared
/// ones, then the rest of `input` joined with `/`.
pub open spec fn relative_text_by_folds(
    input: Seq<Seq<char>>,
    base: Seq<Seq<char>>,
    input_folded: Seq<Seq<char>>,
    base_folded: Seq<Seq<char>>,
) -> Seq<char> {
    if input == base {
        seq!['.']
    } else {
        let c = common_prefix_len(input_folded, base_folded);
        parent_steps((base.len() - c) as nat) + join_slash(input.skip(c as int))
    }
}

/// Each component in lowercase.
pub open spec fn lowercased(v: Seq<Seq<char>>) -> Seq<Seq<char>> {
    v.map_values(|x: Seq<char>| lowercase_text(x))
}

proof fn lemma_common_prefix_of_lowercased(a: Seq<Seq<char>>, b: Seq<Seq<char>>)
    ensures
        common_prefix_len(lowercased(a), lowercased(b)) == common_components(a, b),
    decreases a.len(),
{
    if a.len() > 0 && b.len() > 0 {
        assert(lowercased(a).drop_first() =~= lowercased(a.drop_first()));
        assert(lowercased(b).drop_first() =~= lowercased(b.drop_first()));
        lemma_common_prefix_of_lowercased(a.drop_first(), b.drop_first());
    }
}

/// Appends the path of `input` relative to `base` (both the components of an
/// absolute path), comparing components by their folded forms.
pub fn relative_include_path_by_folds(
    input: &Vec<String>,
    base: &Vec<String>,
    input_folded: &Vec<String>,
    base_folded: &Vec<String>,
    output: &mut String,
)
    requires
        input_folded@.len() == input@.len(),
        base_folded@.len() == base@.len(),
    ensures
        final(output)@ == old(output)@ + relative_text_by_folds(
            string_texts(input@),
            string_texts(base@),
            string_texts(input_folded@),
            string_texts(base_folded@),
        ),
{
    let ghost ti = string_texts(input@);
    let ghost tb = string_texts(base@);
    let ghost fi = string_texts(input_folded@);
    let ghost fb = string_texts(base_folded@);
    if same_components(input, base) {
        push_char(output, '.');
        return;
    }
    let mut common: usize = 0;
    assert(fi.skip(0) =~= fi && fb.skip(0) =~= fb);
    while common < input_folded.len() && common < base_folded.len() && input_folded[common]
        == base_folded[common]
        invariant
            common <= input@.len() == input_folded@.len(),
            common <= base@.len() == base_folded@.len(),
            fi == string_texts(input_folded@),
            fb == string_texts(base_folded@),
            common_prefix_len(fi, fb) == common + common_prefix_len(
                fi.skip(common as int),
                fb.skip(common as int),
            ),
        decreases input@.len() - common,
    {
        assert(fi.skip(common as int).drop_first() =~= fi.skip(common + 1));
        assert(fb.skip(common as int).drop_first() =~= fb.skip(common + 1));
        assert(fi.skip(common as int)[0] == input_folded@[common as int]@);
        assert(fb.skip(common as int)[0] == base_folded@[common as int]@);
        common = common + 1;
    }
    proof {
        if common < input@.len() && common < base@.len() {
            assert(fi.skip(common as int)[0] == input_folded@[common as int]@);
            assert(fb.skip(common as int)[0] == base_folded@[common as int]@);
        }
    }
    let steps = base.len() - common;
    let mut k: usize = 0;
    while k < steps
        invariant
            k <= steps,
            output@ == old(output)@ + parent_steps(k as nat),
        decreases steps - k,
    {
        push_char(output, '.');
        push_char(output, '.');
        push_char(output, '/');
        assert(old(output)@ + parent_steps((k + 1) as nat) =~= old(output)@ + parent_steps(k as nat)
            + seq!['.', '.', '/']);
        k = k + 1;
    }
    let ghost before = output@;
    let mut i = common;
    let ghost rest = ti.skip(common as int);
    assert(rest.subrange(0, 0) =~= seq![]);
    assert(before + join_slash(seq![]) =~= before);
    while i < input.len()
        invariant
            common <= i <= input@.len(),
            ti == string_texts(input@),
            rest == ti.skip(common as int),
            output@ == before + join_slash(rest.subrange(0, i - common)),
        decreases input@.len() - i,
    {
        let ghost part = rest.subrange(0, i - common + 1);
        assert(part.drop_last() =~= rest.subrange(0, i - common));
        assert(part.last() == input@[i as int]@);
        if i > common {
            push_char(output, '/');
        } else {
            assert(part =~= seq![input@[i as int]@]);
        }
        append_str_chars(output, &input[i]);
        assert(output@ =~= before + join_slash(part));
        i = i + 1;
    }
    assert(rest.subrange(0, i - common) =~= rest);
}

/// Each string in lowercase.
fn lowercase_all(v: &Vec<String>) -> (r: Vec<String>)
    ensures
        string_texts(r@) == lowercased(string_texts(v@)),
{
    let mut r: Vec<String> = Vec::new();
    let mut i: usize = 0;
    while i < v.len()
        invariant
            i <= v@.len(),
            r@.len() == i,
            forall|k: int| 0 <= k < i ==> (#[trigger] r@[k])@ == lowercase_text(v@[k]@),
        decreases v@.len() - i,
    {
        r.push(lowercase(v[i].as_str()));
        i = i + 1;
    }
    assert(string_texts(r@) =~= lowercased(string_texts(v@)));
    r
}

/// Appends the path of `input` relative to `base` (both the components of an
/// absolute path), comparing components without regard to case.
pub fn relative_include_path(input: &Vec<String>, base: &Vec<String>, output: &mut String)
    ensures
        final(output)@ == old(output)@ + relative_include_text(string_texts(input@), string_texts(base@)),
{
    let input_folded = lowercase_all(input);
    let base_folded = lowercase_all(base);
    relative_include_path_by_folds(input, base, &input_folded, &base_folded, output);
    proof {
        lemma_common_prefix_of_lowercased(string_texts(input@), string_texts(base@));
    }
}

} // verus!

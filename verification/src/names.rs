//! Names derived from scene paths: short labels, file-name slugs, and the
//! places a `cameras.json` may sit.
use vstd::prelude::*;

use crate::text::{chars_are, collect_chars, decimal_chars, decimal_digits, string_from_chars};

verus! {

/// `c` may stay in a file name as it is: an ASCII letter or digit, `-` or `_`.
pub open spec fn is_name_char(c: char) -> bool {
    ('a' <= c && c <= 'z') || ('A' <= c && c <= 'Z') || ('0' <= c && c <= '9') || c == '-' || c == '_'
}

/// `s` with every character that may not stay in a file name replaced by `-`.
pub open spec fn dashed(s: Seq<char>) -> Seq<char> {
    s.map_values(|c: char| if is_name_char(c) { c } else { '-' })
}

/// `s` without its leading dashes.
pub open spec fn trim_leading_dashes(s: Seq<char>) -> Seq<char>
    decreases s.len(),
{
    if s.len() > 0 && s[0] == '-' {
        trim_leading_dashes(s.drop_first())
    } else {
        s
    }
}

/// `s` without its trailing dashes.
pub open spec fn trim_trailing_dashes(s: Seq<char>) -> Seq<char>
    decreases s.len(),
{
    if s.len() > 0 && s.last() == '-' {
        trim_trailing_dashes(s.drop_last())
    } else {
        s
    }
}

/// The file-name-safe form of `s`: unsafe characters become dashes, dashes
/// at either end go, and what would be empty becomes `scene`.
pub open spec fn sanitized(s: Seq<char>) -> Seq<char> {
    let t = trim_trailing_dashes(trim_leading_dashes(dashed(s)));
    if t.len() == 0 {
        "scene"@
    } else {
        t
    }
}

/// Trimming leading dashes leaves a suffix that does not start with one.
proof fn lemma_trim_leading(s: Seq<char>)
    ensures
        exists|i: int| 0 <= i <= s.len() && trim_leading_dashes(s) == #[trigger] s.subrange(i, s.len() as int),
        trim_leading_dashes(s).len() > 0 ==> trim_leading_dashes(s)[0] != '-',
    decreases s.len(),
{
    if s.len() > 0 && s[0] == '-' {
        lemma_trim_leading(s.drop_first());
        let i = choose|i: int|
            0 <= i <= s.drop_first().len() && trim_leading_dashes(s.drop_first()) == #[trigger] s.drop_first().subrange(
                i,
                s.drop_first().len() as int,
            );
        assert(s.drop_first().subrange(i, s.drop_first().len() as int) == s.subrange(i + 1, s.len() as int));
    } else {
        assert(s == s.subrange(0, s.len() as int));
    }
}

/// Trimming trailing dashes leaves a prefix that does not end with one.
proof fn lemma_trim_trailing(s: Seq<char>)
    ensures
        exists|j: int| 0 <= j <= s.len() && trim_trailing_dashes(s) == #[trigger] s.subrange(0, j),
        trim_trailing_dashes(s).len() > 0 ==> trim_trailing_dashes(s).last() != '-',
    decreases s.len(),
{
    if s.len() > 0 && s.last() == '-' {
        lemma_trim_trailing(s.drop_last());
        let j = choose|j: int|
            0 <= j <= s.drop_last().len() && trim_trailing_dashes(s.drop_last()) == #[trigger] s.drop_last().subrange(0, j);
        assert(s.drop_last().subrange(0, j) == s.subrange(0, j));
    } else {
        assert(s == s.subrange(0, s.len() as int));
    }
}

/// A sequence that starts with no dash is its own leading trim.
proof fn lemma_trim_leading_noop(s: Seq<char>)
    requires
        s.len() == 0 || s[0] != '-',
    ensures
        trim_leading_dashes(s) == s,
{
}

/// A sequence that ends with no dash is its own trailing trim.
proof fn lemma_trim_trailing_noop(s: Seq<char>)
    requires
        s.len() == 0 || s.last() != '-',
    ensures
        trim_trailing_dashes(s) == s,
{
}

/// The sanitized form of a name is a nonempty run of file-name characters
/// that neither starts nor ends with a dash.
pub proof fn lemma_sanitized_shape(s: Seq<char>)
    ensures
        sanitized(s).len() > 0,
        sanitized(s)[0] != '-',
        sanitized(s).last() != '-',
        forall|i: int| 0 <= i < sanitized(s).len() ==> is_name_char(#[trigger] sanitized(s)[i]),
{
    let d = dashed(s);
    let a = trim_leading_dashes(d);
    let t = trim_trailing_dashes(a);
    lemma_trim_leading(d);
    lemma_trim_trailing(a);
    let i = choose|i: int| 0 <= i <= d.len() && a == #[trigger] d.subrange(i, d.len() as int);
    let j = choose|j: int| 0 <= j <= a.len() && t == #[trigger] a.subrange(0, j);
    if t.len() > 0 {
        assert(t[0] == a[0]);
        assert forall|k: int| 0 <= k < t.len() implies is_name_char(#[trigger] t[k]) by {
            assert(t[k] == d[i + k]);
        }
    } else {
        reveal_strlit("scene");
    }
}

/// Law: sanitizing a name twice gives the same name as sanitizing it once.
pub proof fn lemma_sanitize_idempotent(s: Seq<char>)
    ensures
        sanitized(sanitized(s)) == sanitized(s),
{
    let t = sanitized(s);
    lemma_sanitized_shape(s);
    assert(dashed(t) =~= t);
    lemma_trim_leading_noop(t);
    lemma_trim_trailing_noop(t);
}

/// Whether `c` is an ASCII letter or digit, `-` or `_`.
fn is_name_char_exec(c: char) -> (r: bool)
    ensures
        r == is_name_char(c),
{
    ('a' <= c && c <= 'z') || ('A' <= c && c <= 'Z') || ('0' <= c && c <= '9') || c == '-' || c == '_'
}

/// Makes `value` safe as part of a file name: characters other than ASCII
/// letters, digits, `-` and `_` become `-`, dashes at both ends are trimmed,
/// and an empty result becomes `scene`.
pub fn sanitize_filename(value: &str) -> (r: String)
    ensures
        r@ == sanitized(value@),
{
    let chars = collect_chars(value);
    let n = chars.len();
    let mut mapped: Vec<char> = Vec::new();
    let mut k: usize = 0;
    while k < n
        invariant
            n == chars@.len(),
            chars@ == value@,
            k <= n,
            mapped@ == dashed(value@).take(k as int),
        decreases n - k,
    {
        let c = chars[k];
        let kept = if is_name_char_exec(c) { c } else { '-' };
        mapped.push(kept);
        assert(dashed(value@).take(k + 1) =~= dashed(value@).take(k as int).push(kept));
        k += 1;
    }
    assert(mapped@ =~= dashed(value@));
    let mut start: usize = 0;
    while start < n && mapped[start] == '-'
        invariant
            n == mapped@.len(),
            start <= n,
            trim_leading_dashes(mapped@) == trim_leading_dashes(mapped@.subrange(start as int, n as int)),
        decreases n - start,
    {
        assert(mapped@.subrange(start as int, n as int).drop_first() =~= mapped@.subrange(start + 1, n as int));
        start += 1;
    }
    let ghost lead = mapped@.subrange(start as int, n as int);
    proof {
        lemma_trim_leading_noop(lead);
    }
    let mut end: usize = n;
    while end > start && mapped[end - 1] == '-'
        invariant
            n == mapped@.len(),
            start <= end <= n,
            lead == mapped@.subrange(start as int, n as int),
            trim_trailing_dashes(lead) == trim_trailing_dashes(mapped@.subrange(start as int, end as int)),
        decreases end - start,
    {
        assert(mapped@.subrange(start as int, end as int).drop_last() =~= mapped@.subrange(start as int, end - 1));
        end -= 1;
    }
    let ghost trimmed = mapped@.subrange(start as int, end as int);
    proof {
        lemma_trim_trailing_noop(trimmed);
    }
    if start == end {
        String::from_str("scene")
    } else {
        let mut out: Vec<char> = Vec::new();
        let mut i = start;
        while i < end
            invariant
                start <= i <= end <= n,
                n == mapped@.len(),
                out@ == mapped@.subrange(start as int, i as int),
            decreases end - i,
        {
            out.push(mapped[i]);
            assert(mapped@.subrange(start as int, i + 1) =~= mapped@.subrange(start as int, i as int).push(mapped@[i as int]));
            i += 1;
        }
        string_from_chars(out.as_slice())
    }
}


/// What `Path::file_name` gives for the path written `p`.
pub uninterp spec fn file_name_of(p: Seq<char>) -> Option<Seq<char>>;

/// What `Path::file_stem` gives for the path written `p`.
pub uninterp spec fn file_stem_of(p: Seq<char>) -> Option<Seq<char>>;

/// What `Path::parent` gives for the path written `p`.
pub uninterp spec fn parent_of(p: Seq<char>) -> Option<Seq<char>>;

/// What `Path::join` gives for the path written `base` and the relative
/// path written `name`.
pub uninterp spec fn joined_path(base: Seq<char>, name: Seq<char>) -> Seq<char>;

/// `std::path::Path::file_name`: the final component of `path`, if it is a
/// normal component. The contract claims only that the result is the one
/// `file_name_of` names for `path`; a component of a `&str` path is always
/// UTF-8, so the conversion back to a `String` never fails.
#[verifier::external_body]
fn path_file_name(path: &str) -> (r: Option<String>)
    ensures
        match r {
            Some(name) => file_name_of(path@) == Some(name@),
            None => file_name_of(path@) is None,
        },
{
    match std::path::Path::new(path).file_name() {
        Some(name) => Some(name.to_string_lossy().into_owned()),
        None => None,
    }
}

/// `std::path::Path::file_stem`: the file name of `path` without its final
/// extension. The contract claims only that the result is the one
/// `file_stem_of` names for `path`.
#[verifier::external_body]
fn path_file_stem(path: &str) -> (r: Option<String>)
    ensures
        match r {
            Some(stem) => file_stem_of(path@) == Some(stem@),
            None => file_stem_of(path@) is None,
        },
{
    match std::path::Path::new(path).file_stem() {
        Some(stem) => Some(stem.to_string_lossy().into_owned()),
        None => None,
    }
}

/// `std::path::Path::parent`: `path` without its final component, if it
/// has one. The contract claims that the result is the one `parent_of` names
/// for `path` and, as removing a component does, that it is shorter than
/// `path`.
#[verifier::external_body]
fn path_parent(path: &str) -> (r: Option<String>)
    ensures
        match r {
            Some(parent) => parent_of(path@) == Some(parent@) && parent@.len() < path@.len(),
            None => parent_of(path@) is None,
        },
{
    match std::path::Path::new(path).parent() {
        Some(parent) => Some(parent.to_string_lossy().into_owned()),
        None => None,
    }
}

/// `std::path::Path::join`: `name` adjoined to `base`. The contract claims
/// only that the result is the one `joined_path` names for the two paths.
#[verifier::external_body]
fn path_join(base: &str, name: &str) -> (r: String)
    ensures
        r@ == joined_path(base@, name@),
{
    std::path::Path::new(base).join(name).to_string_lossy().into_owned()
}

/// The label a path is shown with: its file name, or the whole path when it
/// has none.
pub open spec fn short_label(p: Seq<char>) -> Seq<char> {
    match file_name_of(p) {
        Some(name) => name,
        None => p,
    }
}

/// The file name of `path`, or `path` itself when it has none.
pub fn short_path(path: &str) -> (r: String)
    ensures
        r@ == short_label(path@),
{
    match path_file_name(path) {
        Some(name) => name,
        None => String::from_str(path),
    }
}

/// `path`, then its parent, its parent's parent, and so on.
pub open spec fn ancestors(p: Seq<char>) -> Seq<Seq<char>>
    decreases p.len(),
{
    match parent_of(p) {
        Some(q) => if q.len() < p.len() {
            seq![p] + ancestors(q)
        } else {
            seq![p]
        },
        None => seq![p],
    }
}

/// A path component that names no scene: the `point_cloud` directory or an
/// `iteration_*` directory of a training run.
pub open spec fn is_training_dir(name: Seq<char>) -> bool {
    name == "point_cloud"@ || "iteration_"@.is_prefix_of(name)
}

/// The slug of the first of `names` (file names of successive ancestors)
/// that names the scene, or `scene`.
pub open spec fn slug_from(p: Seq<char>) -> Seq<char>
    decreases p.len(),
{
    let rest = match parent_of(p) {
        Some(q) => if q.len() < p.len() {
            slug_from(q)
        } else {
            "scene"@
        },
        None => "scene"@,
    };
    match file_name_of(p) {
        None => rest,
        Some(name) => if is_training_dir(name) {
            rest
        } else {
            let stem = match file_stem_of(name) {
                Some(s) => s,
                None => name,
            };
            if stem.len() > 0 && stem != "point_cloud"@ {
                sanitized(stem)
            } else {
                rest
            }
        },
    }
}

/// Whether `prefix` starts `s`.
fn starts_with_chars(s: &[char], prefix: &str) -> (r: bool)
    ensures
        r == prefix@.is_prefix_of(s@),
{
    let p = collect_chars(prefix);
    if p.len() > s.len() {
        return false;
    }
    let mut i: usize = 0;
    while i < p.len()
        invariant
            p@ == prefix@,
            p@.len() <= s@.len(),
            i <= p@.len(),
            forall|j: int| 0 <= j < i ==> p@[j] == s@[j],
        decreases p.len() - i,
    {
        if p[i] != s[i] {
            return false;
        }
        i += 1;
    }
    assert(p@ =~= s@.subrange(0, p@.len() as int));
    true
}

/// A short name for the scene at `path`, fit for file names: the first
/// ancestor's file name that is neither `point_cloud` nor `iteration_*`,
/// without its extension and sanitized; `scene` when there is none.
pub fn scene_slug(path: &str) -> (r: String)
    ensures
        r@ == slug_from(path@),
{
    let mut current: String = String::from_str(path);
    loop
        invariant
            slug_from(current@) == slug_from(path@),
        decreases current@.len(),
    {
        let parent = path_parent(current.as_str());
        let ghost p = current@;
        let ghost rest = match parent_of(p) {
            Some(q) => if q.len() < p.len() {
                slug_from(q)
            } else {
                "scene"@
            },
            None => "scene"@,
        };
        match path_file_name(current.as_str()) {
            Some(name) => {
                let chars = collect_chars(name.as_str());
                let skipped = chars_are(chars.as_slice(), "point_cloud") || starts_with_chars(chars.as_slice(), "iteration_");
                if !skipped {
                    let stem = match path_file_stem(name.as_str()) {
                        Some(stem) => stem,
                        None => name,
                    };
                    let stem_chars = collect_chars(stem.as_str());
                    if stem_chars.len() > 0 && !chars_are(stem_chars.as_slice(), "point_cloud") {
                        return sanitize_filename(stem.as_str());
                    }
                }
            },
            None => {},
        }
        match parent {
            Some(q) => {
                current = q;
            },
            None => {
                return String::from_str("scene");
            },
        }
    }
}

/// The texts of `v`.
pub open spec fn string_views(v: Seq<String>) -> Seq<Seq<char>> {
    v.map_values(|s: String| s@)
}

/// `cameras.json` joined to each of `dirs`.
pub open spec fn cameras_json_in(dirs: Seq<Seq<char>>) -> Seq<Seq<char>> {
    dirs.map_values(|a: Seq<char>| joined_path(a, "cameras.json"@))
}

/// The places searched for `cameras.json` beside a model: `cameras.json`
/// joined to each proper ancestor of the model path, nearest first.
pub open spec fn cameras_json_candidates(p: Seq<char>) -> Seq<Seq<char>> {
    cameras_json_in(ancestors(p).drop_first())
}

/// The paths where a `cameras.json` for the model at `model_path` may be,
/// nearest first.
pub fn cameras_json_paths(model_path: &str) -> (r: Vec<String>)
    ensures
        string_views(r@) == cameras_json_candidates(model_path@),
{
    let mut out: Vec<String> = Vec::new();
    let mut current = path_parent(model_path);
    let ghost mut done: Seq<Seq<char>> = seq![];
    proof {
        assert(ancestors(model_path@).drop_first() == match parent_of(model_path@) {
            Some(q) => ancestors(q),
            None => seq![],
        });
    }
    loop
        invariant
            string_views(out@) == cameras_json_in(done),
            done.len() == out@.len(),
            ancestors(model_path@).drop_first() == done + match current {
                Some(c) => ancestors(c@),
                None => seq![],
            },
        decreases match current {
            Some(c) => c@.len() + 1,
            None => 0,
        },
    {
        match current {
            Some(c) => {
                let candidate = path_join(c.as_str(), "cameras.json");
                let ghost before = out@;
                let ghost joined = candidate@;
                out.push(candidate);
                let next = path_parent(c.as_str());
                proof {
                    let old_done = done;
                    done = done.push(c@);
                    assert forall|i: int| 0 <= i < out@.len() implies #[trigger] string_views(out@)[i]
                        == cameras_json_in(done)[i] by {
                        assert(string_views(out@)[i] == out@[i]@);
                        assert(cameras_json_in(done)[i] == joined_path(done[i], "cameras.json"@));
                        if i < before.len() {
                            assert(out@[i] == before[i]);
                            assert(done[i] == old_done[i]);
                            assert(string_views(before)[i] == cameras_json_in(old_done)[i]);
                            assert(string_views(before)[i] == before[i]@);
                            assert(cameras_json_in(old_done)[i] == joined_path(old_done[i], "cameras.json"@));
                        } else {
                            assert(out@[i]@ == joined);
                        }
                    }
                    assert(ancestors(c@) == seq![c@] + match next {
                        Some(q) => ancestors(q@),
                        None => seq![],
                    });
                    assert(string_views(out@) =~= cameras_json_in(done));
                }
                current = next;
            },
            None => {
                assert(done + seq![] =~= done);
                return out;
            },
        }
    }
}


/// `n` in decimal, padded with leading zeros to at least two digits.
pub open spec fn two_digit(n: nat) -> Seq<char> {
    if n < 10 {
        seq!['0'] + decimal_digits(n)
    } else {
        decimal_digits(n)
    }
}

/// The file a quality-sweep profile is written to: its position, at least
/// two digits, a dash, its name and `.bmp`.
pub open spec fn sweep_name(index: nat, profile: Seq<char>) -> Seq<char> {
    two_digit(index) + seq!['-'] + profile + ".bmp"@
}

/// Appends the characters of `s`.
fn push_str_chars(out: &mut Vec<char>, s: &str)
    ensures
        final(out)@ == old(out)@ + s@,
{
    let chars = collect_chars(s);
    let mut i: usize = 0;
    while i < chars.len()
        invariant
            chars@ == s@,
            i <= chars@.len(),
            out@ == old(out)@ + s@.take(i as int),
        decreases chars.len() - i,
    {
        out.push(chars[i]);
        assert(s@.take(i + 1) == s@.take(i as int).push(s@[i as int]));
        i += 1;
    }
    assert(s@.take(s@.len() as int) == s@);
}

/// The file name of quality-sweep profile `profile` at position `index`.
pub fn sweep_file_name(index: usize, profile: &str) -> (r: String)
    ensures
        r@ == sweep_name(index as nat, profile@),
{
    let mut out: Vec<char> = Vec::new();
    if index < 10 {
        out.push('0');
    }
    let digits = decimal_chars(index as u64);
    let mut i: usize = 0;
    while i < digits.len()
        invariant
            i <= digits@.len(),
            digits@ == decimal_digits(index as nat),
            out@ == (if index < 10 { seq!['0'] } else { Seq::<char>::empty() }) + digits@.take(i as int),
        decreases digits.len() - i,
    {
        out.push(digits[i]);
        assert(digits@.take(i + 1) == digits@.take(i as int).push(digits@[i as int]));
        i += 1;
    }
    assert(digits@.take(digits@.len() as int) == digits@);
    out.push('-');
    push_str_chars(&mut out, profile);
    push_str_chars(&mut out, ".bmp");
    assert(out@ =~= sweep_name(index as nat, profile@));
    string_from_chars(out.as_slice())
}

/// The file name of a viewer screenshot of the scene at `model_path`,
/// taken `millis` milliseconds after the Unix epoch.
pub open spec fn screenshot_name(model_path: Seq<char>, millis: nat) -> Seq<char> {
    "splatrs-"@ + slug_from(model_path) + seq!['-'] + decimal_digits(millis) + ".bmp"@
}

/// The file name a viewer screenshot is saved under.
pub fn screenshot_file_name(model_path: &str, millis: u64) -> (r: String)
    ensures
        r@ == screenshot_name(model_path@, millis as nat),
{
    let mut out: Vec<char> = Vec::new();
    push_str_chars(&mut out, "splatrs-");
    let slug = scene_slug(model_path);
    push_str_chars(&mut out, slug.as_str());
    out.push('-');
    let digits = decimal_chars(millis);
    let mut i: usize = 0;
    let ghost prefix = out@;
    while i < digits.len()
        invariant
            i <= digits@.len(),
            digits@ == decimal_digits(millis as nat),
            out@ == prefix + digits@.take(i as int),
        decreases digits.len() - i,
    {
        out.push(digits[i]);
        assert(digits@.take(i + 1) == digits@.take(i as int).push(digits@[i as int]));
        i += 1;
    }
    assert(digits@.take(digits@.len() as int) == digits@);
    push_str_chars(&mut out, ".bmp");
    assert(out@ =~= screenshot_name(model_path@, millis as nat));
    string_from_chars(out.as_slice())
}

} // verus!

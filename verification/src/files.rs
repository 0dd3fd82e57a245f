//! Which file a request for the front end is answered with.
use vstd::prelude::*;

use crate::text::{collect_chars, push_char, segments, split_slash};

verus! {

/// The served files live under this directory.
pub open spec fn files_dir() -> Seq<char> {
    seq!['f', 'i', 'l', 'e', 's', '/']
}

/// A segment that names no component of a path: an empty one (from a doubled
/// or trailing `/`) or `.`.
pub open spec fn skipped_segment(seg: Seq<char>) -> bool {
    seg.len() == 0 || seg == seq!['.']
}

/// The last component of a path split at its `/` characters, as `Path`
/// sees it.
pub open spec fn last_component(segs: Seq<Seq<char>>) -> Option<Seq<char>>
    decreases segs.len(),
{
    if segs.len() == 0 {
        None
    } else if skipped_segment(segs.last()) {
        last_component(segs.drop_last())
    } else {
        Some(segs.last())
    }
}

/// A file name has an extension when it is not `..` and holds a `.` after
/// its first character (`Path::extension`).
pub open spec fn name_has_extension(name: Seq<char>) -> bool {
    name != seq!['.', '.'] && exists|i: int| 0 < i < name.len() && name[i] == '.'
}

/// The path `p` has an extension: its last component has one.
pub open spec fn has_extension(p: Seq<char>) -> bool {
    match last_component(segments(p)) {
        Some(name) => name_has_extension(name),
        None => false,
    }
}

/// The file a request for `requested` is answered with: `files/index.html`
/// for the root, else `files/<requested>`, with `.html` added when the path
/// has no extension.
pub open spec fn served_path_text(requested: Seq<char>) -> Seq<char> {
    if requested.len() == 0 || requested == seq!['/'] {
        files_dir() + seq!['i', 'n', 'd', 'e', 'x', '.', 'h', 't', 'm', 'l']
    } else if has_extension(requested) {
        files_dir() + requested
    } else {
        files_dir() + requested + seq!['.', 'h', 't', 'm', 'l']
    }
}

fn push_str_chars(s: &mut String, t: &str)
    ensures
        final(s)@ == old(s)@ + t@,
{
    s.append(t);
}

fn is_skipped(seg: &Vec<char>) -> (r: bool)
    ensures
        r == skipped_segment(seg@),
{
    if seg.len() == 0 {
        return true;
    }
    let r = seg.len() == 1 && seg[0] == '.';
    proof {
        if seg.len() == 1 && seg[0] == '.' {
            assert(seg@ =~= seq!['.']);
        }
    }
    r
}

fn has_extension_name(name: &Vec<char>) -> (r: bool)
    ensures
        r == name_has_extension(name@),
{
    if name.len() == 2 && name[0] == '.' && name[1] == '.' {
        assert(name@ =~= seq!['.', '.']);
        return false;
    }
    let mut k: usize = 1;
    while k < name.len()
        invariant
            1 <= k <= name.len() || name.len() == 0,
            name@ != seq!['.', '.'],
            forall|i: int| 0 < i < k && i < name.len() ==> name@[i] != '.',
        decreases name.len() - k,
    {
        if name[k] == '.' {
            return true;
        }
        k = k + 1;
    }
    false
}

proof fn lemma_last_component_take(s: Seq<Seq<char>>, j: int)
    requires
        0 < j <= s.len(),
    ensures
        last_component(s.take(j)) == (if skipped_segment(s[j - 1]) {
            last_component(s.take(j - 1))
        } else {
            Some(s[j - 1])
        }),
{
    assert(s.take(j).drop_last() =~= s.take(j - 1));
    assert(s.take(j).last() == s[j - 1]);
}

/// Whether the path held by `chars` has an extension.
fn path_has_extension(chars: &Vec<char>) -> (r: bool)
    ensures
        r == has_extension(chars@),
{
    let segs = split_slash(chars);
    let ghost sv = segs@.map_values(|v: Vec<char>| v@);
    let mut j = segs.len();
    assert(sv.take(j as int) =~= sv);
    while j > 0 && is_skipped(&segs[j - 1])
        invariant
            0 <= j <= segs.len(),
            sv == segs@.map_values(|v: Vec<char>| v@),
            sv == segments(chars@),
            last_component(sv) == last_component(sv.take(j as int)),
        decreases j,
    {
        proof {
            lemma_last_component_take(sv, j as int);
        }
        j = j - 1;
    }
    if j == 0 {
        assert(sv.take(0) =~= Seq::<Seq<char>>::empty());
        false
    } else {
        proof {
            lemma_last_component_take(sv, j as int);
        }
        has_extension_name(&segs[j - 1])
    }
}

/// The path of the file that answers a request for `requested`, as
/// `served_path_text` says.
pub fn served_path(requested: &str) -> (p: String)
    ensures
        p@ == served_path_text(requested@),
{
    let mut p = String::new();
    push_char(&mut p, 'f');
    push_char(&mut p, 'i');
    push_char(&mut p, 'l');
    push_char(&mut p, 'e');
    push_char(&mut p, 's');
    push_char(&mut p, '/');
    assert(p@ =~= files_dir());
    let chars = collect_chars(requested);
    let root = chars.len() == 0 || (chars.len() == 1 && chars[0] == '/');
    proof {
        reveal_strlit("index.html");
        reveal_strlit(".html");
        if chars.len() == 1 && chars[0] == '/' {
            assert(chars@ =~= seq!['/']);
        }
    }
    if root {
        push_str_chars(&mut p, "index.html");
    } else {
        push_str_chars(&mut p, requested);
        if !path_has_extension(&chars) {
            push_str_chars(&mut p, ".html");
        }
    }
    p
}

/// The request is not for the root.
pub open spec fn not_root(requested: Seq<char>) -> bool {
    requested.len() != 0 && requested != seq!['/']
}

/// Law: a request other than the root whose last path component holds a `.`
/// after its first character, and is not `..`, is served as it is under
/// `files/`, whatever follows the dot and however long it is.
pub proof fn lemma_served_with_extension(requested: Seq<char>, name: Seq<char>, i: int)
    requires
        not_root(requested),
        last_component(segments(requested)) == Some(name),
        name != seq!['.', '.'],
        0 < i < name.len(),
        name[i] == '.',
    ensures
        served_path_text(requested) == files_dir() + requested,
{
}

/// Law: a request other than the root whose last path component holds no `.`
/// after its first character, or is `..`, or which has no component at all,
/// is served with `.html` added.
pub proof fn lemma_served_without_extension(requested: Seq<char>)
    requires
        not_root(requested),
        last_component(segments(requested)) matches Some(name) ==> (name == seq!['.', '.'] || forall|i: int|
            0 < i < name.len() ==> name[i] != '.'),
    ensures
        served_path_text(requested) == files_dir() + requested + seq!['.', 'h', 't', 'm', 'l'],
{
}

/// A text without `/` is a single segment.
proof fn lemma_segments_no_slash(t: Seq<char>)
    requires
        forall|k: int| 0 <= k < t.len() ==> t[k] != '/',
    ensures
        segments(t) == seq![t],
    decreases t.len(),
{
    if t.len() > 0 {
        let u = t.drop_last();
        assert forall|k: int| 0 <= k < u.len() implies u[k] != '/' by {
            assert(u[k] == t[k]);
        }
        lemma_segments_no_slash(u);
        assert(t.last() == t[t.len() - 1]);
        assert(u.push(t.last()) =~= t);
        let rest = segments(u);
        assert(rest.update(rest.len() - 1, rest.last().push(t.last())) =~= seq![t]);
    } else {
        assert(t =~= Seq::<char>::empty());
    }
}

/// Law: a plain file name (no `/`) other than `..` that holds a `.` after its
/// first character is served as it is under `files/`.
pub proof fn lemma_served_plain_name(name: Seq<char>, i: int)
    requires
        forall|k: int| 0 <= k < name.len() ==> name[k] != '/',
        name != seq!['.', '.'],
        0 < i < name.len(),
        name[i] == '.',
    ensures
        served_path_text(name) == files_dir() + name,
{
    lemma_segments_no_slash(name);
    assert(seq![name].drop_last() =~= Seq::<Seq<char>>::empty());
    assert(name != seq!['.']) by {
        assert(name.len() >= 2);
    }
    assert(name != seq!['/']) by {
        assert(name.len() >= 2);
    }
    assert(last_component(seq![name]) == Some(name));
    lemma_served_with_extension(name, name, i);
}

} // verus!

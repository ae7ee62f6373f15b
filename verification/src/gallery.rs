//! The gallery generator: filters a directory listing to image entries
//! and renders the HTML gallery document.
//!
//! A directory listing is a sequence of file names. An entry qualifies
//! as an image when it has a literal dot-extension whose ASCII-lowercase
//! form is on a fixed allow-list. Rendering is a pure function of the
//! listing: a fixed header, one image element per qualifying entry in
//! listing order, and a fixed footer.

use vstd::prelude::*;

verus! {

/// ASCII-lowercase one character: 'A' through 'Z' map to 'a' through
/// 'z', every other character is unchanged.
pub open spec fn lower_char(c: char) -> char {
    if 65 <= c as u32 && c as u32 <= 90 {
        (((c as u32) + 32) as u8) as char
    } else {
        c
    }
}

/// Executable ASCII lowercase for one character.
pub fn lower_char_exec(c: char) -> (r: char)
    ensures
        r == lower_char(c),
{
    let u = c as u32;
    if 65 <= u && u <= 90 {
        ((u + 32) as u8) as char
    } else {
        c
    }
}

/// ASCII-lowercase a character sequence.
pub open spec fn lower(s: Seq<char>) -> Seq<char> {
    s.map_values(|c: char| lower_char(c))
}

/// The index of the last '.' in `s`, or -1 if `s` holds none.
pub open spec fn last_dot(s: Seq<char>) -> int
    decreases s.len(),
{
    if s.len() == 0 {
        -1
    } else if s.last() == '.' {
        s.len() - 1
    } else {
        last_dot(s.drop_last())
    }
}

/// The extension of a file name: the portion after the last '.'.
/// A name with no '.', or whose only '.' is its first character (a
/// leading-dot name such as ".profile"), has no extension.
pub open spec fn ext_of(name: Seq<char>) -> Option<Seq<char>> {
    if last_dot(name) >= 1 {
        Some(name.subrange(last_dot(name) + 1, name.len() as int))
    } else {
        None
    }
}

/// The fixed allow-list of image extensions, matched case-insensitively.
pub open spec fn is_allowed_ext(e: Seq<char>) -> bool {
    ||| lower(e) == "jpg"@
    ||| lower(e) == "jpeg"@
    ||| lower(e) == "png"@
    ||| lower(e) == "gif"@
    ||| lower(e) == "bmp"@
    ||| lower(e) == "webp"@
    ||| lower(e) == "svg"@
    ||| lower(e) == "tiff"@
    ||| lower(e) == "ico"@
}

/// An image entry: a file name with a literal dot-extension whose
/// lowercase form is on the allow-list.
pub open spec fn is_image_name(name: Seq<char>) -> bool {
    match ext_of(name) {
        Some(e) => is_allowed_ext(e),
        None => false,
    }
}

/// `last_dot` lies in range, points at a '.', and nothing after it is a '.'.
proof fn lemma_last_dot_bounds(s: Seq<char>)
    ensures
        -1 <= last_dot(s) < s.len(),
        last_dot(s) >= 0 ==> s[last_dot(s)] == '.',
        forall|j: int| last_dot(s) < j < s.len() ==> s[j] != '.',
    decreases s.len(),
{
    if s.len() > 0 && s.last() != '.' {
        lemma_last_dot_bounds(s.drop_last());
        assert(forall|j: int| 0 <= j < s.len() - 1 ==> s[j] == s.drop_last()[j]);
    }
}

/// A '.' at `k` with no '.' after it is the last dot.
proof fn lemma_last_dot_at(s: Seq<char>, k: int)
    requires
        0 <= k < s.len(),
        s[k] == '.',
        forall|j: int| k < j < s.len() ==> s[j] != '.',
    ensures
        last_dot(s) == k,
    decreases s.len(),
{
    if k < s.len() - 1 {
        lemma_last_dot_at(s.drop_last(), k);
    }
}

/// A sequence without any '.' has no last dot.
proof fn lemma_last_dot_none(s: Seq<char>)
    requires
        forall|j: int| 0 <= j < s.len() ==> s[j] != '.',
    ensures
        last_dot(s) == -1,
    decreases s.len(),
{
    if s.len() > 0 {
        lemma_last_dot_none(s.drop_last());
    }
}

/// The index of the last '.' in `name`, if any.
fn find_last_dot(name: &str) -> (r: Option<usize>)
    ensures
        match r {
            Some(i) => i as int == last_dot(name@),
            None => last_dot(name@) == -1,
        },
{
    let n = name.unicode_len();
    let mut i = n;
    while i > 0
        invariant
            i <= n,
            n == name@.len(),
            forall|j: int| i <= j < n ==> name@[j] != '.',
        decreases i,
    {
        let c = name.get_char(i - 1);
        if c == '.' {
            proof {
                lemma_last_dot_at(name@, i - 1);
            }
            return Some(i - 1);
        }
        i = i - 1;
    }
    proof {
        lemma_last_dot_none(name@);
    }
    None
}

/// Whether ASCII-lowercasing `e` yields exactly `t`.
fn matches_lower(e: &str, t: &str) -> (b: bool)
    ensures
        b == (lower(e@) == t@),
{
    let n = e.unicode_len();
    let m = t.unicode_len();
    if n != m {
        return false;
    }
    let mut i: usize = 0;
    while i < n
        invariant
            i <= n,
            n == e@.len(),
            n == t@.len(),
            forall|j: int| 0 <= j < i ==> lower_char(e@[j]) == t@[j],
        decreases n - i,
    {
        let c = lower_char_exec(e.get_char(i));
        let d = t.get_char(i);
        if c != d {
            assert(lower(e@)[i as int] != t@[i as int]);
            return false;
        }
        i = i + 1;
    }
    proof {
        assert(lower(e@) =~= t@);
    }
    true
}

/// Whether `name` has a literal dot-extension on the image allow-list,
/// matched case-insensitively.
pub fn has_image_extension(name: &str) -> (b: bool)
    ensures
        b == is_image_name(name@),
{
    proof {
        lemma_last_dot_bounds(name@);
    }
    match find_last_dot(name) {
        Some(i) => {
            if i >= 1 {
                let n = name.unicode_len();
                let e = name.substring_char(i + 1, n);
                matches_lower(e, "jpg") || matches_lower(e, "jpeg") || matches_lower(e, "png")
                    || matches_lower(e, "gif") || matches_lower(e, "bmp") || matches_lower(
                    e,
                    "webp",
                ) || matches_lower(e, "svg") || matches_lower(e, "tiff") || matches_lower(e, "ico")
            } else {
                false
            }
        },
        None => false,
    }
}

/// The image entries of a directory listing, in listing order.
pub open spec fn image_names(names: Seq<Seq<char>>) -> Seq<Seq<char>> {
    names.filter(|n: Seq<char>| is_image_name(n))
}

/// Filter a directory listing to its image entries, preserving the
/// listing order.
pub fn image_entries(names: &Vec<String>) -> (r: Vec<String>)
    ensures
        r.deep_view() == image_names(names.deep_view()),
{
    proof {
        reveal(Seq::filter);
    }
    let mut r: Vec<String> = Vec::new();
    let mut i: usize = 0;
    while i < names.len()
        invariant
            i <= names.len(),
            r.deep_view() == image_names(names.deep_view().take(i as int)),
        decreases names.len() - i,
    {
        let ghost prefix = names.deep_view().take(i as int);
        let ghost next = names.deep_view().take(i as int + 1);
        proof {
            reveal(Seq::filter);
            assert(next.drop_last() =~= prefix);
            assert(next.last() == names.deep_view()[i as int]);
        }
        let name = &names[i];
        if has_image_extension(name.as_str()) {
            r.push(name.clone());
            proof {
                assert(r.deep_view() =~= image_names(prefix).push(name@));
            }
        }
        proof {
            assert(r.deep_view() =~= image_names(next));
        }
        i = i + 1;
    }
    proof {
        assert(names.deep_view().take(names.len() as int) =~= names.deep_view());
    }
    r
}

/// The fixed first line of every gallery document.
pub open spec fn header() -> Seq<char> {
    "<html><head><title>Image Gallery</title></head><body><div style=\"text-align:center;\">\n"@
}

/// The fixed last line of every gallery document.
pub open spec fn footer() -> Seq<char> {
    "</div></body></html>\n"@
}

/// The image element emitted for the entry `name` of directory `dir`:
/// its source is the entry's path, its alt text the file name.
pub open spec fn img_line(dir: Seq<char>, name: Seq<char>) -> Seq<char> {
    "<img src=\""@ + dir + "/"@ + name + "\" alt=\""@ + name + "\" height=\"250\">\n"@
}

/// The image elements for the listing `names`, one line per image
/// entry, in listing order.
pub open spec fn body_lines(dir: Seq<char>, names: Seq<Seq<char>>) -> Seq<char>
    decreases names.len(),
{
    if names.len() == 0 {
        Seq::empty()
    } else {
        body_lines(dir, names.drop_last()) + (if is_image_name(names.last()) {
            img_line(dir, names.last())
        } else {
            Seq::empty()
        })
    }
}

/// A complete gallery document for directory `dir` with listing `names`.
pub open spec fn gallery_doc(dir: Seq<char>, names: Seq<Seq<char>>) -> Seq<char> {
    header() + body_lines(dir, names) + footer()
}

/// Render the gallery document for the listing `names` of directory
/// `dir`.
pub fn render_gallery(dir: &str, names: &Vec<String>) -> (doc: String)
    ensures
        doc@ == gallery_doc(dir@, names.deep_view()),
{
    let mut doc = String::from_str(
        "<html><head><title>Image Gallery</title></head><body><div style=\"text-align:center;\">\n",
    );
    let mut i: usize = 0;
    while i < names.len()
        invariant
            i <= names.len(),
            doc@ == header() + body_lines(dir@, names.deep_view().take(i as int)),
        decreases names.len() - i,
    {
        let ghost prefix = names.deep_view().take(i as int);
        let ghost next = names.deep_view().take(i as int + 1);
        proof {
            assert(next.drop_last() =~= prefix);
            assert(next.last() == names.deep_view()[i as int]);
        }
        let name = &names[i];
        if has_image_extension(name.as_str()) {
            doc.append("<img src=\"");
            doc.append(dir);
            doc.append("/");
            doc.append(name.as_str());
            doc.append("\" alt=\"");
            doc.append(name.as_str());
            doc.append("\" height=\"250\">\n");
            proof {
                assert(doc@ =~= header() + (body_lines(dir@, prefix) + img_line(dir@, name@)));
            }
        }
        proof {
            assert(doc@ =~= header() + body_lines(dir@, next));
        }
        i = i + 1;
    }
    proof {
        assert(names.deep_view().take(names.len() as int) =~= names.deep_view());
    }
    doc.append("</div></body></html>\n");
    proof {
        assert(doc@ =~= gallery_doc(dir@, names.deep_view()));
    }
    doc
}

/// The document owed for one directory snapshot. An unreadable
/// directory (`listing` is `None`) is rendered as an empty listing —
/// header and footer with no image elements — rather than failing.
pub open spec fn snapshot_doc(dir: Seq<char>, listing: Option<Seq<Seq<char>>>) -> Seq<char> {
    match listing {
        Option::Some(names) => gallery_doc(dir, names),
        Option::None => gallery_doc(dir, Seq::empty()),
    }
}

/// Render the document for one directory snapshot; `listing` is `None`
/// when the directory could not be read.
pub fn render_snapshot(dir: &str, listing: &Option<Vec<String>>) -> (doc: String)
    ensures
        doc@ == snapshot_doc(dir@, listing.deep_view()),
{
    match listing {
        Option::Some(names) => render_gallery(dir, names),
        Option::None => {
            let empty: Vec<String> = Vec::new();
            let doc = render_gallery(dir, &empty);
            proof {
                assert(empty.deep_view() =~= Seq::<Seq<char>>::empty());
            }
            doc
        },
    }
}

/// Membership among the image entries: a name is kept exactly when it
/// occurs in the listing and is an image name.
proof fn lemma_image_names_contains_iff(s: Seq<Seq<char>>, x: Seq<char>)
    ensures
        image_names(s).contains(x) <==> (s.contains(x) && is_image_name(x)),
    decreases s.len(),
{
    reveal(Seq::filter);
    if s.len() > 0 {
        let rest = s.drop_last();
        lemma_image_names_contains_iff(rest, x);
        assert(s.contains(x) <==> (rest.contains(x) || s.last() == x)) by {
            if s.contains(x) {
                let i = choose|i: int| 0 <= i < s.len() && s[i] == x;
                if i < s.len() - 1 {
                    assert(rest[i] == x);
                }
            }
            if rest.contains(x) {
                let i = choose|i: int| 0 <= i < rest.len() && rest[i] == x;
                assert(s[i] == x);
            }
            assert(s.last() == s[s.len() - 1]);
        }
        if is_image_name(s.last()) {
            let kept = image_names(rest).push(s.last());
            assert(image_names(s) == kept);
            assert(kept.contains(x) <==> (image_names(rest).contains(x) || s.last() == x)) by {
                if kept.contains(x) {
                    let i = choose|i: int| 0 <= i < kept.len() && kept[i] == x;
                    if i < kept.len() - 1 {
                        assert(image_names(rest)[i] == x);
                    }
                }
                if image_names(rest).contains(x) {
                    let i = choose|i: int| 0 <= i < image_names(rest).len() && image_names(
                        rest,
                    )[i] == x;
                    assert(kept[i] == x);
                }
                assert(kept.last() == kept[kept.len() - 1]);
            }
        } else {
            assert(image_names(s) == image_names(rest));
        }
    }
}

/// Law: regeneration is idempotent in the set of image entries. Two
/// listings of the same directory snapshot — the same set of names,
/// however ordered by the underlying filesystem — yield the same set
/// of image entries, and an identical listing yields the identical
/// document.
pub proof fn lemma_regeneration_idempotent(
    dir: Seq<char>,
    names1: Seq<Seq<char>>,
    names2: Seq<Seq<char>>,
)
    requires
        names1.to_set() == names2.to_set(),
    ensures
        image_names(names1).to_set() == image_names(names2).to_set(),
        names1 == names2 ==> gallery_doc(dir, names1) == gallery_doc(dir, names2),
{
    broadcast use vstd::set::group_set_axioms;

    assert forall|x: Seq<char>|
        image_names(names1).to_set().contains(x) == image_names(names2).to_set().contains(
            x,
        ) by {
        lemma_image_names_contains_iff(names1, x);
        lemma_image_names_contains_iff(names2, x);
        assert(names1.to_set().contains(x) == names1.contains(x));
        assert(names2.to_set().contains(x) == names2.contains(x));
        assert(names1.to_set().contains(x) == names2.to_set().contains(x));
        assert(image_names(names1).to_set().contains(x) == image_names(names1).contains(x));
        assert(image_names(names2).to_set().contains(x) == image_names(names2).contains(x));
    }
    assert(image_names(names1).to_set() =~= image_names(names2).to_set());
}

/// Law: an empty listing, and the snapshot of an unreadable directory,
/// both yield a document that is exactly the header followed by the
/// footer, with no image elements.
pub proof fn lemma_empty_snapshot(dir: Seq<char>)
    ensures
        gallery_doc(dir, Seq::empty()) == header() + footer(),
        snapshot_doc(dir, Option::None) == header() + footer(),
{
    assert(gallery_doc(dir, Seq::empty()) =~= header() + footer());
}

/// The image element lines for the entries `entries`, one line per
/// entry, in order.
pub open spec fn lines_of(dir: Seq<char>, entries: Seq<Seq<char>>) -> Seq<char>
    decreases entries.len(),
{
    if entries.len() == 0 {
        Seq::empty()
    } else {
        lines_of(dir, entries.drop_last()) + img_line(dir, entries.last())
    }
}

/// The document body carries one image element per image entry.
proof fn lemma_body_lines_are_entry_lines(dir: Seq<char>, names: Seq<Seq<char>>)
    ensures
        body_lines(dir, names) == lines_of(dir, image_names(names)),
    decreases names.len(),
{
    reveal(Seq::filter);
    if names.len() == 0 {
        assert(image_names(names) =~= Seq::<Seq<char>>::empty());
    } else {
        let rest = names.drop_last();
        lemma_body_lines_are_entry_lines(dir, rest);
        if is_image_name(names.last()) {
            let kept = image_names(rest).push(names.last());
            assert(image_names(names) == kept);
            assert(kept.drop_last() =~= image_names(rest));
            assert(kept.last() == names.last());
        } else {
            assert(image_names(names) == image_names(rest));
            assert(body_lines(dir, names) =~= body_lines(dir, rest));
        }
    }
}

/// Law: the gallery document lists exactly the image entries of the
/// listing — its body is one image element per entry of
/// `image_names(names)`, in listing order, between the fixed header
/// and footer, and nothing else.
pub proof fn lemma_doc_lists_exactly_the_image_entries(dir: Seq<char>, names: Seq<Seq<char>>)
    ensures
        gallery_doc(dir, names) == header() + lines_of(dir, image_names(names)) + footer(),
{
    lemma_body_lines_are_entry_lines(dir, names);
}

/// Law: an image entry requires a literal dot-extension. A name
/// holding no '.' at all — such as a bare `favicon` — is never an
/// image entry, whatever the allow-list says.
pub proof fn lemma_extension_requires_dot(name: Seq<char>)
    requires
        forall|j: int| 0 <= j < name.len() ==> name[j] != '.',
    ensures
        !is_image_name(name),
{
    lemma_last_dot_none(name);
}

} // verus!

//! Parsing of the two kinds of diff line that carry metadata: the
//! `diff --git a/<old> b/<new>` file header and the
//! `@@ -<start>,<count> +<start>,<count> @@ <context>` hunk header.

use vstd::prelude::*;
use crate::text::{
    chars_of, find_from, first_occurrence, head_piece, lemma_first_occurrence_unique, last_position, lemma_char_absent, lemma_first_char, lemma_piece_at_first,
    lemma_piece_without, piece, piece_bounds, rfind_char, same_text,
};

verus! {

/// The text of an optional string slice.
pub open spec fn text_of(o: Option<&str>) -> Option<Seq<char>> {
    match o {
        Some(t) => Some(t@),
        None => None,
    }
}

/// A header token without its two-character `a/` or `b/` marker; a token of
/// fewer than two characters leaves nothing.
pub open spec fn strip_marker(t: Seq<char>) -> Seq<char> {
    if t.len() < 2 {
        Seq::empty()
    } else {
        t.subrange(2, t.len() as int)
    }
}

/// The path in space-separated token `n` of a header line, if the line has
/// that token.
pub open spec fn header_path(line: Seq<char>, n: nat) -> Option<Seq<char>> {
    match piece(line, seq![' '], n) {
        Some(t) => Some(strip_marker(t)),
        None => None,
    }
}

/// The old and new paths of a `diff --git` line: its third and fourth tokens.
pub open spec fn header_paths(line: Seq<char>) -> (Option<Seq<char>>, Option<Seq<char>>) {
    (header_path(line, 2), header_path(line, 3))
}

/// The file name of a `/`-separated path: its last component once empty and
/// `.` components are passed over; none where that component is `..` or no
/// component is left.
pub open spec fn file_name(p: Seq<char>) -> Option<Seq<char>>
    decreases p.len(),
{
    if exists|k: int| last_position(p, '/', k) {
        let k = choose|k: int| last_position(p, '/', k);
        let tail = p.subrange(k + 1, p.len() as int);
        if tail.len() == 0 || tail == seq!['.'] {
            file_name(p.subrange(0, k))
        } else if tail == seq!['.', '.'] {
            None
        } else {
            Some(tail)
        }
    } else if p.len() == 0 || p == seq!['.'] || p == seq!['.', '.'] {
        None
    } else {
        Some(p)
    }
}

/// What follows the last dot of a file name, where that dot is not its first
/// character.
pub open spec fn dotted_suffix(name: Seq<char>) -> Option<Seq<char>> {
    if exists|k: int| last_position(name, '.', k) {
        let k = choose|k: int| last_position(name, '.', k);
        if k > 0 {
            Some(name.subrange(k + 1, name.len() as int))
        } else {
            None
        }
    } else {
        None
    }
}

/// The extension token of a path: the dotted suffix of its file name, else
/// the whole file name (so `Makefile` stands for itself).
pub open spec fn extension_token(p: Seq<char>) -> Option<Seq<char>> {
    match file_name(p) {
        Some(name) => match dotted_suffix(name) {
            Some(e) => Some(e),
            None => Some(name),
        },
        None => None,
    }
}

/// The extension token of an optional path.
pub open spec fn path_extension(p: Option<Seq<char>>) -> Option<Seq<char>> {
    match p {
        Some(q) => extension_token(q),
        None => None,
    }
}

/// One extension for an old and a new one: the one that is there, or the
/// shared one; none where both are missing or they differ.
pub open spec fn reconcile(a: Option<Seq<char>>, b: Option<Seq<char>>) -> Option<Seq<char>> {
    match (a, b) {
        (Some(x), Some(y)) => if x == y {
            Some(x)
        } else {
            None
        },
        (Some(x), None) => Some(x),
        (None, Some(y)) => Some(y),
        (None, None) => None,
    }
}

/// The extension that governs highlighting for a `diff --git` line.
pub open spec fn header_extension(line: Seq<char>) -> Option<Seq<char>> {
    reconcile(path_extension(header_path(line, 2)), path_extension(header_path(line, 3)))
}

/// What a `diff --git` line says changed: the shared path, an added,
/// deleted or renamed file, or `?` where the line lacks a path.
pub open spec fn change_description(line: Seq<char>) -> Seq<char> {
    match header_paths(line) {
        (Some(a), Some(b)) => if a == b {
            a
        } else if b == "/dev/null"@ {
            "deleted: "@ + a
        } else if a == "/dev/null"@ {
            "added: "@ + b
        } else {
            "renamed: "@ + a + " ⟶  "@ + b
        },
        _ => "?"@,
    }
}

/// The new-file start line of a hunk header: in the part between the first
/// two `@@`, what follows the first `+` up to the next `,`; empty where the
/// line has no such part, that part no `+`, or what follows the `+` no `,`.
pub open spec fn hunk_line_number(line: Seq<char>) -> Seq<char> {
    match piece(line, seq!['@', '@'], 1) {
        Some(range) => match piece(range, seq!['+'], 1) {
            Some(t) => if exists|i: int| first_occurrence(t, seq![','], i) {
                head_piece(t, seq![','])
            } else {
                Seq::empty()
            },
            None => Seq::empty(),
        },
        None => Seq::empty(),
    }
}

/// The code context of a hunk header: the part after the second `@@`, up to
/// any third one; empty where the line has no such part.
pub open spec fn hunk_code_fragment(line: Seq<char>) -> Seq<char> {
    match piece(line, seq!['@', '@'], 2) {
        Some(f) => f,
        None => Seq::empty(),
    }
}

/// A well-formed file header: `diff --git a/<old> b/<new>`.
pub open spec fn header_line(old: Seq<char>, new: Seq<char>) -> Seq<char> {
    "diff --git a/"@ + old + " b/"@ + new
}

/// `s` holds no space, so that it stands as one token of a header line.
pub open spec fn has_no_space(s: Seq<char>) -> bool {
    forall|i: int| 0 <= i < s.len() ==> s[i] != ' '
}

/// The paths read from a well-formed header are the two paths written in it.
pub proof fn lemma_header_paths(old: Seq<char>, new: Seq<char>)
    requires
        has_no_space(old),
        has_no_space(new),
    ensures
        header_paths(header_line(old, new)) == (Some(old), Some(new)),
{
    reveal_strlit("diff --git a/");
    reveal_strlit(" b/");
    let sp = seq![' '];
    let line = header_line(old, new);
    let mid = seq![' ', 'b', '/'];
    assert(" b/"@ =~= mid);
    let l1 = seq!['-', '-', 'g', 'i', 't', ' ', 'a', '/'] + old + mid + new;
    let l2 = seq!['a', '/'] + old + mid + new;
    let l3 = seq!['b', '/'] + new;
    assert(line =~= seq!['d', 'i', 'f', 'f', ' '] + l1);
    lemma_first_char(line, ' ', 4);
    assert(line.subrange(5, line.len() as int) =~= l1);
    lemma_first_char(l1, ' ', 5);
    assert(l1.subrange(6, l1.len() as int) =~= l2);
    let k: int = 2 + old.len() as int;
    assert forall|j: int| 0 <= j < k implies l2[j] != ' ' by {
        if j >= 2 {
            assert(l2[j] == old[j - 2]);
        }
    }
    lemma_first_char(l2, ' ', k);
    assert(l2.subrange(k + 1, l2.len() as int) =~= l3);
    assert forall|j: int| 0 <= j < l3.len() implies l3[j] != ' ' by {
        if j >= 2 {
            assert(l3[j] == new[j - 2]);
        }
    }
    lemma_char_absent(l3, ' ');
    lemma_piece_at_first(line, sp, 4, 1);
    lemma_piece_at_first(line, sp, 4, 2);
    lemma_piece_at_first(l1, sp, 5, 0);
    lemma_piece_at_first(l1, sp, 5, 1);
    lemma_piece_at_first(l2, sp, k, 0);
    lemma_piece_without(l3, sp, 0);
    assert(l2.subrange(0, k).subrange(2, k) =~= old);
    assert(l3.subrange(2, l3.len() as int) =~= new);
}

/// Where the old and new paths of a well-formed header have the same
/// extension token, that token is the header's extension.
pub proof fn lemma_same_extension(old: Seq<char>, new: Seq<char>)
    requires
        has_no_space(old),
        has_no_space(new),
        extension_token(old) == extension_token(new),
    ensures
        header_extension(header_line(old, new)) == extension_token(old),
{
    lemma_header_paths(old, new);
}

/// Where the old and new paths of a well-formed header have different
/// extension tokens, the header has no extension.
pub proof fn lemma_differing_extensions(old: Seq<char>, new: Seq<char>)
    requires
        has_no_space(old),
        has_no_space(new),
        extension_token(old) is Some,
        extension_token(new) is Some,
        extension_token(old) != extension_token(new),
    ensures
        header_extension(header_line(old, new)) is None,
{
    lemma_header_paths(old, new);
}

/// A header whose new path is `/dev/null` and whose old path is another
/// describes the deletion of the old path.
pub proof fn lemma_deleted_description(line: Seq<char>, old: Seq<char>)
    requires
        header_paths(line) == (Some(old), Some("/dev/null"@)),
        old != "/dev/null"@,
    ensures
        change_description(line) == "deleted: "@ + old,
        change_description(line).subrange(0, "deleted: "@.len() as int) == "deleted: "@,
{
    assert(("deleted: "@ + old).subrange(0, "deleted: "@.len() as int) =~= "deleted: "@);
}

/// A hunk header whose part between the first two `@@` holds no `+`, or
/// which has no such part, gives an empty start line.
pub proof fn lemma_hunk_without_plus(line: Seq<char>)
    requires
        match piece(line, seq!['@', '@'], 1) {
            Some(range) => forall|i: int| 0 <= i < range.len() ==> range[i] != '+',
            None => true,
        },
    ensures
        hunk_line_number(line) == Seq::<char>::empty(),
{
    if let Some(range) = piece(line, seq!['@', '@'], 1) {
        lemma_char_absent(range, '+');
        lemma_piece_without(range, seq!['+'], 1);
    }
}

/// What is read from a line depends on its text alone: reading equal lines,
/// or one line twice, gives equal results.
pub proof fn lemma_parsing_is_deterministic(a: Seq<char>, b: Seq<char>)
    requires
        a == b,
    ensures
        header_paths(a) == header_paths(b),
        header_extension(a) == header_extension(b),
        change_description(a) == change_description(b),
        hunk_line_number(a) == hunk_line_number(b),
        hunk_code_fragment(a) == hunk_code_fragment(b),
{
}

/// A header line with fewer than four space-separated tokens has no new
/// path, is described as `?`, and takes its extension from the old path
/// alone; with fewer than three it has no path and no extension at all.
pub proof fn lemma_short_header(line: Seq<char>)
    requires
        piece(line, seq![' '], 3) is None,
    ensures
        header_path(line, 3) is None,
        change_description(line) == "?"@,
        header_extension(line) == path_extension(header_path(line, 2)),
        piece(line, seq![' '], 2) is None ==> header_path(line, 2) is None && header_extension(
            line,
        ) is None,
{
}

proof fn lemma_last_position_unique(s: Seq<char>, c: char, i: int, j: int)
    requires
        last_position(s, c, i),
        last_position(s, c, j),
    ensures
        i == j,
{
}

/// Where the file name of the path `v` starts and ends.
fn file_name_bounds(v: &Vec<char>) -> (r: Option<(usize, usize)>)
    ensures
        match r {
            Some((a, b)) => a <= b <= v.len() && file_name(v@) == Some(
                v@.subrange(a as int, b as int),
            ),
            None => file_name(v@) is None,
        },
{
    let mut hi: usize = v.len();
    assert(v@.subrange(0, hi as int) =~= v@);
    loop
        invariant
            hi <= v.len(),
            file_name(v@) == file_name(v@.subrange(0, hi as int)),
        decreases hi,
    {
        let ghost p = v@.subrange(0, hi as int);
        match rfind_char(v, 0, hi, '/') {
            Some(k) => {
                let ghost tail = p.subrange(k + 1, p.len() as int);
                proof {
                    let c = choose|c: int| last_position(p, '/', c);
                    lemma_last_position_unique(p, '/', c, k as int);
                    assert(tail =~= v@.subrange(k + 1, hi as int));
                    assert(p.subrange(0, k as int) =~= v@.subrange(0, k as int));
                }
                let len = hi - (k + 1);
                if len == 0 || (len == 1 && v[k + 1] == '.') {
                    assert(len == 0 || tail =~= seq!['.']);
                    hi = k;
                } else if len == 2 && v[k + 1] == '.' && v[k + 2] == '.' {
                    assert(tail =~= seq!['.', '.']);
                    return None;
                } else {
                    assert(tail != seq!['.'] && tail != seq!['.', '.'] && tail.len() != 0) by {
                        if len == 1 {
                            assert(tail[0] != seq!['.'][0]);
                        }
                        if len == 2 {
                            assert(tail[0] != '.' || tail[1] != '.');
                        }
                    }
                    return Some((k + 1, hi));
                }
            },
            None => {
                assert(!exists|c: int| last_position(p, '/', c)) by {
                    if exists|c: int| last_position(p, '/', c) {
                        let c = choose|c: int| last_position(p, '/', c);
                        assert(v@[c] == '/');
                    }
                }
                if hi == 0 || (hi == 1 && v[0] == '.') || (hi == 2 && v[0] == '.' && v[1] == '.') {
                    assert(hi == 0 || p =~= seq!['.'] || p =~= seq!['.', '.']);
                    return None;
                }
                assert(p != seq!['.'] && p != seq!['.', '.'] && p.len() != 0) by {
                    if hi == 1 {
                        assert(p[0] != seq!['.'][0]);
                    }
                    if hi == 2 {
                        assert(p[0] != '.' || p[1] != '.');
                    }
                }
                return Some((0, hi));
            },
        }
    }
}

/// The extension token of a path: the text after the last dot of its file
/// name, else the file name itself.
fn get_extension(s: &str) -> (r: Option<&str>)
    ensures
        text_of(r) == extension_token(s@),
{
    let v = chars_of(s);
    match file_name_bounds(&v) {
        Some((a, b)) => {
            let ghost name = v@.subrange(a as int, b as int);
            match rfind_char(&v, a, b, '.') {
                Some(k) => {
                    proof {
                        let c = choose|c: int| last_position(name, '.', c);
                        lemma_last_position_unique(name, '.', c, k - a);
                        assert(name.subrange(k - a + 1, name.len() as int) =~= v@.subrange(
                            k + 1,
                            b as int,
                        ));
                    }
                    if k > a {
                        Some(s.substring_char(k + 1, b))
                    } else {
                        Some(s.substring_char(a, b))
                    }
                },
                None => {
                    assert(!exists|c: int| last_position(name, '.', c)) by {
                        if exists|c: int| last_position(name, '.', c) {
                            let c = choose|c: int| last_position(name, '.', c);
                            assert(v@[a + c] == '.');
                        }
                    }
                    Some(s.substring_char(a, b))
                },
            }
        },
        None => None,
    }
}

/// The path in space-separated token `n` of `line`, whose characters are `v`.
fn header_token<'a>(line: &'a str, v: &Vec<char>, n: usize) -> (r: Option<&'a str>)
    requires
        v@ == line@,
    ensures
        text_of(r) == header_path(line@, n as nat),
{
    let space = vec![' '];
    assert(space@ =~= seq![' ']);
    assert(v@.subrange(0, v.len() as int) =~= v@);
    match piece_bounds(v, 0, v.len(), &space, n) {
        Some((a, b)) => {
            if b - a >= 2 {
                assert(v@.subrange(a as int, b as int).subrange(2, b - a) =~= v@.subrange(
                    a + 2,
                    b as int,
                ));
                Some(line.substring_char(a + 2, b))
            } else {
                assert(v@.subrange(b as int, b as int) =~= Seq::<char>::empty());
                Some(line.substring_char(b, b))
            }
        },
        None => None,
    }
}

/// The old and new paths of a `diff --git` line, each without its marker.
fn get_file_paths_from_diff_line(line: &str) -> (r: (Option<&str>, Option<&str>))
    ensures
        text_of(r.0) == header_path(line@, 2),
        text_of(r.1) == header_path(line@, 3),
{
    let v = chars_of(line);
    (header_token(line, &v, 2), header_token(line, &v, 3))
}

/// The extension tokens of the old and new paths of a `diff --git` line.
fn get_file_extensions_from_diff_line(line: &str) -> (r: (Option<&str>, Option<&str>))
    ensures
        text_of(r.0) == path_extension(header_path(line@, 2)),
        text_of(r.1) == path_extension(header_path(line@, 3)),
{
    let (old_path, new_path) = get_file_paths_from_diff_line(line);
    let old_ext = match old_path {
        Some(p) => get_extension(p),
        None => None,
    };
    let new_ext = match new_path {
        Some(p) => get_extension(p),
        None => None,
    };
    (old_ext, new_ext)
}

/// The one extension consistent with both files of a `diff --git` line:
/// `Some("rs")` for `diff --git a/src/main.rs b/src/main.rs`; `None` where
/// neither path gives one or the two differ.
pub fn get_file_extension_from_diff_line(line: &str) -> (r: Option<&str>)
    ensures
        text_of(r) == header_extension(line@),
{
    match get_file_extensions_from_diff_line(line) {
        (Some(ext1), Some(ext2)) => {
            if same_text(ext1, ext2) {
                Some(ext1)
            } else {
                None
            }
        },
        (Some(ext1), None) => Some(ext1),
        (None, Some(ext2)) => Some(ext2),
        (None, None) => None,
    }
}

/// The change a `diff --git` line describes: the path itself where it is
/// unchanged, `deleted: <old>`, `added: <new>`, `renamed: <old> ⟶  <new>`,
/// or `?` where the line lacks a path.
pub fn get_file_change_description_from_diff_line(line: &str) -> (r: String)
    ensures
        r@ == change_description(line@),
{
    match get_file_paths_from_diff_line(line) {
        (Some(file_1), Some(file_2)) => {
            if same_text(file_1, file_2) {
                String::from_str(file_1)
            } else if same_text(file_2, "/dev/null") {
                let mut d = String::from_str("deleted: ");
                d.append(file_1);
                d
            } else if same_text(file_1, "/dev/null") {
                let mut d = String::from_str("added: ");
                d.append(file_2);
                d
            } else {
                let mut d = String::from_str("renamed: ");
                d.append(file_1);
                d.append(" ⟶  ");
                d.append(file_2);
                d
            }
        },
        _ => String::from_str("?"),
    }
}

/// The code context and new-file start line of a hunk header:
/// `(" pub fn delta(\n", "75")` for `@@ -74,15 +75,14 @@ pub fn delta(\n`.
/// A missing part gives an empty string.
pub fn parse_hunk_metadata(line: &str) -> (r: (String, String))
    ensures
        r.0@ == hunk_code_fragment(line@),
        r.1@ == hunk_line_number(line@),
{
    let v = chars_of(line);
    let at = vec!['@', '@'];
    let plus = vec!['+'];
    let comma = vec![','];
    assert(at@ =~= seq!['@', '@']);
    assert(plus@ =~= seq!['+']);
    assert(comma@ =~= seq![',']);
    assert(v@.subrange(0, v.len() as int) =~= line@);
    let line_number = match piece_bounds(&v, 0, v.len(), &at, 1) {
        Some((a, b)) => match piece_bounds(&v, a, b, &plus, 1) {
            Some((c, e)) => match find_from(&v, c, e, &comma) {
                Some(f) => {
                    proof {
                        let t = v@.subrange(c as int, e as int);
                        let i = choose|i: int| first_occurrence(t, seq![','], i);
                        lemma_first_occurrence_unique(t, seq![','], i, f - c);
                        assert(t.subrange(0, f - c) =~= v@.subrange(c as int, f as int));
                    }
                    String::from_str(line.substring_char(c, f))
                },
                None => {
                    assert(!exists|i: int|
                        first_occurrence(v@.subrange(c as int, e as int), seq![','], i));
                    String::new()
                },
            },
            None => String::new(),
        },
        None => String::new(),
    };
    let code_fragment = match piece_bounds(&v, 0, v.len(), &at, 2) {
        Some((a, b)) => String::from_str(line.substring_char(a, b)),
        None => String::new(),
    };
    (code_fragment, line_number)
}

} // verus!

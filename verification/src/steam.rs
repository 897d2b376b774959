//! Reading Steam's `libraryfolders.vdf`, which lists the library folders.
use vstd::prelude::*;
use vstd::slice::slice_subrange;

use crate::text::{chars_eq, chars_of, split_chars, split_on, string_of, trim, trim_bounds};

verus! {

/// The library path one line of `libraryfolders.vdf` declares, if any.
///
/// Such lines look like `"path"		"/some/path"`: after trimming, the line
/// split at `"` has at least four parts, the second of them is `path`, and
/// the fourth is the folder.
pub open spec fn vdf_line_path(line: Seq<char>) -> Option<Seq<char>> {
    let parts = split_on(trim(line), '"');
    if parts.len() >= 4 && parts[1] == "path"@ {
        Some(parts[3])
    } else {
        None
    }
}

/// The library paths that a `libraryfolders.vdf` text declares, in order.
///
/// Lines are the newline-separated segments of the text; a `\r` before a
/// newline, or a final newline, makes no difference once a line is trimmed.
pub open spec fn vdf_library_paths(contents: Seq<char>) -> Seq<Seq<char>> {
    line_paths(split_on(contents, '\n'))
}

/// The library paths declared by `lines`, in order.
pub open spec fn line_paths(lines: Seq<Seq<char>>) -> Seq<Seq<char>> {
    lines.filter_map(|line: Seq<char>| vdf_line_path(line))
}

/// Minimal VDF reader that extracts the `"path"` values of `libraryfolders.vdf`.
pub fn parse_library_paths(contents: &str) -> (paths: Vec<String>)
    ensures
        paths@.len() == vdf_library_paths(contents@).len(),
        forall|i: int|
            0 <= i < paths@.len() ==> #[trigger] paths@[i]@ == vdf_library_paths(contents@)[i],
{
    let chars = chars_of(contents);
    let lines = split_chars(chars.as_slice(), '\n');
    let key = chars_of("path");
    let ghost all_lines = split_on(contents@, '\n');
    let ghost f = |line: Seq<char>| vdf_line_path(line);
    let mut out: Vec<String> = Vec::new();
    let ghost mut model: Seq<Seq<char>> = Seq::empty();
    let n: usize = lines.len();
    let mut k: usize = 0;
    assert(all_lines.take(0).filter_map(f) =~= model);
    while k < n
        invariant
            n == lines@.len(),
            n == all_lines.len(),
            k <= n,
            key@ == "path"@,
            all_lines == split_on(contents@, '\n'),
            forall|i: int| 0 <= i < lines@.len() ==> #[trigger] lines@[i]@ == all_lines[i],
            f == (|line: Seq<char>| vdf_line_path(line)),
            out@.len() == model.len(),
            forall|i: int| 0 <= i < out@.len() ==> #[trigger] out@[i]@ == model[i],
            model == all_lines.take(k as int).filter_map(f),
        decreases n - k,
    {
        let line = lines[k].as_slice();
        assert(line@ == all_lines[k as int]);
        let (a, b) = trim_bounds(line);
        let trimmed = slice_subrange(line, a, b);
        let parts = split_chars(trimmed, '"');
        assert(all_lines.take(k + 1).drop_last() =~= all_lines.take(k as int));
        if parts.len() >= 4 && chars_eq(parts[1].as_slice(), key.as_slice()) {
            let p = string_of(parts[3].as_slice());
            proof {
                model = model + seq![p@];
            }
            out.push(p);
        }
        k = k + 1;
    }
    assert(all_lines.take(n as int) =~= all_lines);
    out
}

/// The library folders a `libraryfolders.vdf` text lists, where it lists
/// any: the first such file found is the one that counts.
pub fn library_folders_in(contents: &str) -> (r: Option<Vec<String>>)
    ensures
        r is None <==> vdf_library_paths(contents@).len() == 0,
        r matches Some(paths) ==> {
            &&& paths@.len() == vdf_library_paths(contents@).len()
            &&& forall|i: int|
                0 <= i < paths@.len() ==> #[trigger] paths@[i]@ == vdf_library_paths(contents@)[i]
        },
{
    let paths = parse_library_paths(contents);
    if paths.len() == 0 {
        None
    } else {
        Some(paths)
    }
}

/// No part of a split holds the separator.
proof fn lemma_split_parts_exclude(s: Seq<char>, sep: char)
    ensures
        forall|i: int, k: int|
            0 <= i < split_on(s, sep).len() && 0 <= k < split_on(s, sep)[i].len()
                ==> #[trigger] split_on(s, sep)[i][k] != sep,
    decreases s.len(),
{
    if s.len() > 0 {
        let t = s.drop_last();
        lemma_split_parts_exclude(t, sep);
        crate::text::lemma_split_on_nonempty(t, sep);
        let parts = split_on(t, sep);
        assert forall|i: int, k: int|
            0 <= i < split_on(s, sep).len() && 0 <= k < split_on(s, sep)[i].len()
                implies #[trigger] split_on(s, sep)[i][k] != sep by {
            if s.last() == sep {
                if i < parts.len() {
                    assert(split_on(s, sep)[i] == parts[i]);
                }
            } else if i < parts.len() - 1 {
                assert(split_on(s, sep)[i] == parts[i]);
            } else {
                let last = parts.last().push(s.last());
                assert(split_on(s, sep)[i] == last);
                if k < parts.last().len() {
                    assert(last[k] == parts[i][k]);
                }
            }
        }
    }
}

proof fn lemma_line_paths_quote_free(lines: Seq<Seq<char>>)
    ensures
        forall|i: int, k: int|
            0 <= i < line_paths(lines).len() && 0 <= k < line_paths(lines)[i].len()
                ==> #[trigger] line_paths(lines)[i][k] != '"',
    decreases lines.len(),
{
    if lines.len() > 0 {
        let rest = lines.drop_last();
        lemma_line_paths_quote_free(rest);
        let line = lines.last();
        lemma_split_parts_exclude(trim(line), '"');
        assert forall|i: int, k: int|
            0 <= i < line_paths(lines).len() && 0 <= k < line_paths(lines)[i].len()
                implies #[trigger] line_paths(lines)[i][k] != '"' by {
            if i < line_paths(rest).len() {
                assert(line_paths(lines)[i] == line_paths(rest)[i]);
            } else {
                let parts = split_on(trim(line), '"');
                assert(line_paths(lines)[i] == parts[3]);
            }
        }
    }
}

/// The library paths read from `libraryfolders.vdf` never hold a `"`.
pub proof fn lemma_library_paths_quote_free(contents: Seq<char>)
    ensures
        forall|i: int, k: int|
            0 <= i < vdf_library_paths(contents).len() && 0 <= k < vdf_library_paths(
                contents,
            )[i].len() ==> #[trigger] vdf_library_paths(contents)[i][k] != '"',
{
    lemma_line_paths_quote_free(split_on(contents, '\n'));
}

/// Splitting a text at a separator joined with another text by that
/// separator gives the parts of the first, then those of the second.
proof fn lemma_split_on_join(a: Seq<char>, b: Seq<char>, sep: char)
    ensures
        split_on(a + seq![sep] + b, sep) == split_on(a, sep) + split_on(b, sep),
    decreases b.len(),
{
    let joined = a + seq![sep] + b;
    if b.len() == 0 {
        assert(joined.drop_last() =~= a);
        assert(split_on(joined, sep) =~= split_on(a, sep) + split_on(b, sep));
    } else {
        let b0 = b.drop_last();
        lemma_split_on_join(a, b0, sep);
        assert(joined.drop_last() =~= a + seq![sep] + b0);
        assert(joined.last() == b.last());
        crate::text::lemma_split_on_nonempty(b0, sep);
        crate::text::lemma_split_on_nonempty(a, sep);
        let left = split_on(a, sep);
        let right = split_on(b0, sep);
        if b.last() == sep {
            assert(split_on(joined, sep) =~= left + right.push(Seq::empty()));
        } else {
            let both = left + right;
            assert(both.last() == right.last());
            assert(both.update(both.len() - 1, both.last().push(b.last())) =~= left
                + right.update(right.len() - 1, right.last().push(b.last())));
        }
        assert(split_on(joined, sep) =~= split_on(a, sep) + split_on(b, sep));
    }
}

/// The paths of two runs of lines are those of the first, then those of the second.
proof fn lemma_line_paths_concat(l1: Seq<Seq<char>>, l2: Seq<Seq<char>>)
    ensures
        line_paths(l1 + l2) == line_paths(l1) + line_paths(l2),
    decreases l2.len(),
{
    if l2.len() == 0 {
        assert(l1 + l2 =~= l1);
        assert(line_paths(l2) =~= Seq::<Seq<char>>::empty());
        assert(line_paths(l1) + line_paths(l2) =~= line_paths(l1));
    } else {
        let l2a = l2.drop_last();
        lemma_line_paths_concat(l1, l2a);
        assert((l1 + l2).drop_last() =~= l1 + l2a);
        assert((l1 + l2).last() == l2.last());
        match vdf_line_path(l2.last()) {
            Some(p) => {
                assert(line_paths(l1 + l2) =~= line_paths(l1) + line_paths(l2a) + seq![p]);
                assert(line_paths(l2) =~= line_paths(l2a) + seq![p]);
                assert(line_paths(l1) + line_paths(l2) =~= line_paths(l1) + line_paths(l2a)
                    + seq![p]);
            },
            None => {
                assert(line_paths(l1 + l2) == line_paths(l1 + l2a));
                assert(line_paths(l2) == line_paths(l2a));
            },
        }
    }
}

/// Reading two `libraryfolders.vdf` texts joined by a newline gives the
/// paths of the first, then those of the second.
pub proof fn lemma_library_paths_join(a: Seq<char>, b: Seq<char>)
    ensures
        vdf_library_paths(a + seq!['\n'] + b) == vdf_library_paths(a) + vdf_library_paths(b),
{
    lemma_split_on_join(a, b, '\n');
    lemma_line_paths_concat(split_on(a, '\n'), split_on(b, '\n'));
}

} // verus!

//! What a preview shows of a Belay target: the files the target writes from
//! the construct the preview was asked for.
use vstd::prelude::*;

use crate::fmt::{join_sep, texts};
use crate::lsp::completion::{comma_pieces, split_commas};
use crate::text::{chars_eq, chars_of, push_str, trim, trimmed_chars};

verus! {

/// A file a Belay plan writes: the target it belongs to, the anchors it came
/// from (comma separated), whether the file the preview was asked from is
/// among its sources, where it is written, and what it holds.
pub struct PlannedFile {
    pub target: String,
    pub origin: String,
    pub from_here: bool,
    pub path: String,
    pub contents: String,
}

/// Whether a file's origin names `name`: one of its comma-separated pieces,
/// trimmed, is the name.
pub open spec fn origin_names(origin: Seq<char>, name: Seq<char>) -> bool {
    exists|i: int| 0 <= i < comma_pieces(origin).len() && trim(#[trigger] comma_pieces(origin)[i]) == name
}

/// Whether a planned file is part of the preview: it belongs to `target`,
/// the file asked from is among its sources, and, when the preview is of one
/// anchor, it came from that anchor.
pub open spec fn previewed(f: PlannedFile, target: Seq<char>, anchor: Option<Seq<char>>) -> bool {
    &&& f.target@ == target
    &&& f.from_here
    &&& match anchor {
        Some(name) => origin_names(f.origin@, name),
        None => true,
    }
}

/// The files among the first `k` that are part of the preview, each written
/// as a comment naming its path, then its contents.
pub open spec fn previewed_files(fs: Seq<PlannedFile>, target: Seq<char>, anchor: Option<Seq<char>>, k: nat) -> Seq<Seq<char>>
    decreases k,
{
    if k == 0 || k > fs.len() {
        Seq::empty()
    } else {
        let before = previewed_files(fs, target, anchor, (k - 1) as nat);
        let f = fs[k - 1];
        if previewed(f, target, anchor) {
            before.push("<!-- "@ + f.path@ + " -->\n"@ + f.contents@)
        } else {
            before
        }
    }
}

/// What a preview of the Belay target `target` shows: the files it writes
/// from here, separated by blank lines; an error when there is none.
pub open spec fn belay_preview_of(fs: Seq<PlannedFile>, target: Seq<char>, anchor: Option<Seq<char>>) -> Result<Seq<char>, Seq<char>> {
    let shown = previewed_files(fs, target, anchor, fs.len());
    if shown.len() == 0 {
        Err("the `"@ + target + "` target produces nothing from this construct"@)
    } else {
        Ok(join_sep(shown, "\n\n"@))
    }
}

fn names_origin(origin: &str, name: &str) -> (r: bool)
    ensures
        r == origin_names(origin@, name@),
{
    let pieces = split_commas(&chars_of(origin));
    let n = chars_of(name);
    let mut i: usize = 0;
    while i < pieces.len()
        invariant
            i <= pieces@.len(),
            n@ == name@,
            pieces@.map_values(|v: Vec<char>| v@) == comma_pieces(origin@),
            forall|m: int| 0 <= m < i ==> trim(#[trigger] comma_pieces(origin@)[m]) != name@,
        decreases pieces@.len() - i,
    {
        let piece = crate::text::string_of(&pieces[i]);
        let t = trimmed_chars(piece.as_str());
        proof {
            assert(comma_pieces(origin@)[i as int] == pieces@[i as int]@);
        }
        if chars_eq(&t, &n) {
            return true;
        }
        i = i + 1;
    }
    false
}

/// What a preview of the Belay target `target` shows, from the files the
/// plan writes, when the preview is of the anchor named `anchor` or of the
/// whole file: each file of the target that the file asked from is a source
/// of (and, for an anchor, that came from it), written as `<!-- path -->`,
/// a line break and its contents, the files separated by blank lines; an
/// error naming the target when there is none.
pub fn belay_preview(files: &Vec<PlannedFile>, target: &str, anchor: Option<&str>) -> (r: Result<String, String>)
    ensures
        match r {
            Ok(t) => belay_preview_of(files@, target@, match anchor { Some(a) => Some(a@), None => None }) == Ok::<Seq<char>, Seq<char>>(t@),
            Err(e) => belay_preview_of(files@, target@, match anchor { Some(a) => Some(a@), None => None }) == Err::<Seq<char>, Seq<char>>(e@),
        },
{
    let ghost wanted = match anchor { Some(a) => Some(a@), None => None };
    let mut shown: Vec<String> = Vec::new();
    let mut k: usize = 0;
    while k < files.len()
        invariant
            k <= files@.len(),
            wanted == match anchor { Some(a) => Some(a@), None => None::<Seq<char>> },
            texts(shown@) == previewed_files(files@, target@, wanted, k as nat),
        decreases files@.len() - k,
    {
        let f = &files[k];
        let keep = crate::text::str_eq(f.target.as_str(), target) && f.from_here && match anchor {
            Some(name) => names_origin(f.origin.as_str(), name),
            None => true,
        };
        if keep {
            let mut one = String::new();
            push_str(&mut one, "<!-- ");
            push_str(&mut one, f.path.as_str());
            push_str(&mut one, " -->\n");
            push_str(&mut one, f.contents.as_str());
            let ghost before = texts(shown@);
            shown.push(one);
            proof {
                assert(texts(shown@) =~= before.push("<!-- "@ + f.path@ + " -->\n"@ + f.contents@));
            }
        }
        k = k + 1;
    }
    if shown.len() == 0 {
        let mut e = String::new();
        push_str(&mut e, "the `");
        push_str(&mut e, target);
        push_str(&mut e, "` target produces nothing from this construct");
        return Err(e);
    }
    let mut out = String::new();
    crate::fmt::push_joined(&mut out, &shown, "\n\n");
    proof {
        assert(out@ =~= join_sep(texts(shown@), "\n\n"@));
    }
    Ok(out)
}

} // verus!

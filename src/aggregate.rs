//! Selecting the source files of a walk, laying their paths out as a tree,
//! and joining their contents into one text.

use vstd::prelude::*;
use crate::text::{extension_of, has_extension};
use crate::tree::{FileNode, is_prefix_of, texts_of};

verus! {

/// One entry met while walking a directory tree.
pub struct WalkEntry {
    /// The full path, as it is shown in the aggregated text.
    pub path: String,
    /// The last component of the path.
    pub file_name: String,
    /// The path's components relative to the walk's root.
    pub relative: Vec<String>,
    /// Whether the entry is a regular file (symbolic links are not followed).
    pub is_file: bool,
}

/// A file picked for aggregation.
pub struct SourceFile {
    /// The full path.
    pub path: String,
    /// The path's components relative to the walk's root.
    pub relative: Vec<String>,
}

/// A file as the contracts see it: its full path and its relative components.
pub open spec fn source_view(f: SourceFile) -> (Seq<char>, Seq<Seq<char>>) {
    (f.path@, texts_of(f.relative@))
}

/// An entry as the contracts see it, in the same shape.
pub open spec fn entry_view(e: WalkEntry) -> (Seq<char>, Seq<Seq<char>>) {
    (e.path@, texts_of(e.relative@))
}

/// The entry is a regular file whose extension is `ext`.
pub open spec fn is_selected(e: WalkEntry, ext: Seq<char>) -> bool {
    e.is_file && extension_of(e.file_name@) == Some(ext)
}

/// The selected entries, in the order of the walk.
pub open spec fn matching(entries: Seq<WalkEntry>, ext: Seq<char>) -> Seq<
    (Seq<char>, Seq<Seq<char>>),
>
    decreases entries.len(),
{
    if entries.len() == 0 {
        Seq::empty()
    } else {
        let rest = matching(entries.drop_last(), ext);
        if is_selected(entries.last(), ext) {
            rest.push(entry_view(entries.last()))
        } else {
            rest
        }
    }
}

/// The block that one file contributes to the aggregated text.
pub open spec fn record(path: Seq<char>, contents: Seq<char>) -> Seq<char> {
    "=== "@ + path + " ===\n"@ + contents + "\n\n"@
}

/// The aggregated text: the blocks of the files, in order, with nothing
/// before, between or after them.
pub open spec fn records(paths: Seq<Seq<char>>, contents: Seq<Seq<char>>) -> Seq<char>
    decreases paths.len(),
{
    if paths.len() == 0 || contents.len() == 0 {
        Seq::empty()
    } else {
        records(paths.drop_last(), contents.drop_last()) + record(
            paths.last(),
            contents.last(),
        )
    }
}

/// A copy of a sequence of strings.
fn copy_texts(v: &Vec<String>) -> (r: Vec<String>)
    ensures
        r@ == v@,
{
    let mut r: Vec<String> = Vec::new();
    let mut i: usize = 0;
    while i < v.len()
        invariant
            i <= v@.len(),
            r@ == v@.take(i as int),
        decreases v@.len() - i,
    {
        r.push(v[i].clone());
        assert(v@.take(i + 1) =~= v@.take(i as int).push(v@[i as int]));
        i = i + 1;
    }
    assert(v@.take(i as int) =~= v@);
    r
}

/// The regular files among `entries` whose extension is exactly `ext`, in the
/// order of the walk.
pub fn select_sources(entries: &Vec<WalkEntry>, ext: &str) -> (r: Vec<SourceFile>)
    ensures
        r@.map_values(|f: SourceFile| source_view(f)) == matching(entries@, ext@),
{
    let mut r: Vec<SourceFile> = Vec::new();
    let mut i: usize = 0;
    while i < entries.len()
        invariant
            i <= entries@.len(),
            r@.map_values(|f: SourceFile| source_view(f)) == matching(
                entries@.take(i as int),
                ext@,
            ),
        decreases entries@.len() - i,
    {
        let e = &entries[i];
        let ghost before = r@;
        proof {
            assert(entries@.take(i + 1).drop_last() =~= entries@.take(i as int));
        }
        if e.is_file && has_extension(e.file_name.as_str(), ext) {
            let f = SourceFile { path: e.path.clone(), relative: copy_texts(&e.relative) };
            r.push(f);
            assert(r@.map_values(|f: SourceFile| source_view(f)) =~= before.map_values(
                |f: SourceFile| source_view(f),
            ).push(entry_view(*e)));
        }
        i = i + 1;
    }
    assert(entries@.take(i as int) =~= entries@);
    r
}

/// Every path of `t` is at most `h` names long: then so is every chain below it.
proof fn lemma_depth_from_paths(t: FileNode, h: nat)
    requires
        forall|p: Seq<Seq<char>>| #[trigger] t.has_path(p) ==> p.len() <= h,
    ensures
        t.depth_within(h),
    decreases h,
{
    if t.children@.len() > 0 {
        let c0 = t.children@[0];
        assert(seq![c0.name@].drop_first() =~= Seq::<Seq<char>>::empty());
        assert(c0.has_path(seq![c0.name@].drop_first()));
        assert(t.has_path(seq![c0.name@]));
        assert forall|i: int| 0 <= i < t.children@.len() implies (#[trigger] t.children@[
            i
        ]).depth_within((h - 1) as nat) by {
            let c = t.children@[i];
            assert forall|p: Seq<Seq<char>>| #[trigger] c.has_path(p) implies p.len() <= h - 1 by {
                let q = seq![c.name@] + p;
                assert(q.drop_first() =~= p);
                assert(t.has_path(q));
            }
            lemma_depth_from_paths(c, (h - 1) as nat);
        }
    }
}

/// The tree of the files' relative paths, under an unnamed root.
pub fn build_tree(files: &Vec<SourceFile>) -> (t: FileNode)
    ensures
        t.wf(),
        t.name@ == Seq::<char>::empty(),
        t.depth_within(usize::MAX as nat),
        forall|p: Seq<Seq<char>>|
            #[trigger] t.has_path(p) <==> (p.len() == 0 || exists|i: int|
                0 <= i < files@.len() && is_prefix_of(p, texts_of(#[trigger] files@[i].relative@))),
{
    let mut t = FileNode::new("");
    proof {
        reveal_strlit("");
    }
    let mut i: usize = 0;
    while i < files.len()
        invariant
            i <= files@.len(),
            t.wf(),
            t.name@ == Seq::<char>::empty(),
            forall|p: Seq<Seq<char>>|
                #[trigger] t.has_path(p) <==> (p.len() == 0 || exists|j: int|
                    0 <= j < i && is_prefix_of(p, texts_of(#[trigger] files@[j].relative@))),
        decreases files@.len() - i,
    {
        let ghost before = t;
        t.insert(files[i].relative.as_slice());
        proof {
            assert forall|p: Seq<Seq<char>>|
                #[trigger] t.has_path(p) <==> (p.len() == 0 || exists|j: int|
                    0 <= j < i + 1 && is_prefix_of(p, texts_of(#[trigger] files@[j].relative@))) by {
                if is_prefix_of(p, texts_of(files@[i as int].relative@)) {
                    assert(0 <= i < i + 1);
                }
                if p.len() > 0 && !is_prefix_of(p, texts_of(files@[i as int].relative@)) {
                    if exists|j: int|
                        0 <= j < i + 1 && is_prefix_of(p, texts_of(#[trigger] files@[j].relative@)) {
                        let j = choose|j: int|
                            0 <= j < i + 1 && is_prefix_of(
                                p,
                                texts_of(#[trigger] files@[j].relative@),
                            );
                        assert(j < i);
                    }
                }
            }
        }
        i = i + 1;
    }
    proof {
        assert forall|p: Seq<Seq<char>>| #[trigger] t.has_path(p) implies p.len()
            <= usize::MAX by {
            if p.len() > 0 {
                let j = choose|j: int|
                    0 <= j < files@.len() && is_prefix_of(p, texts_of(#[trigger] files@[j].relative@));
                assert(files@[j].relative.len() == files@[j].relative@.len());
            }
        }
        lemma_depth_from_paths(t, usize::MAX as nat);
    }
    t
}

/// The full paths of the files.
pub open spec fn paths_of(files: Seq<SourceFile>) -> Seq<Seq<char>> {
    files.map_values(|f: SourceFile| f.path@)
}

/// The full paths of the selected entries.
pub open spec fn matched_paths(m: Seq<(Seq<char>, Seq<Seq<char>>)>) -> Seq<Seq<char>> {
    m.map_values(|v: (Seq<char>, Seq<Seq<char>>)| v.0)
}

proof fn lemma_record_nonempty(path: Seq<char>, contents: Seq<char>)
    ensures
        record(path, contents).len() > 0,
{
    reveal_strlit("=== ");
}

/// The block that one file contributes: a header line naming `path`, the
/// contents as they are, and a blank line.
pub fn format_record(path: &str, contents: &str) -> (r: String)
    ensures
        r@ == record(path@, contents@),
{
    let mut s = "=== ".to_owned();
    s.append(path);
    s.append(" ===\n");
    s.append(contents);
    s.append("\n\n");
    s
}

/// Joins the files' blocks into one text, in the order given: `contents[i]`
/// is what was read from `files[i]`. The text is empty exactly when there are
/// no files.
pub fn aggregate(files: &Vec<SourceFile>, contents: &Vec<String>) -> (r: String)
    requires
        files@.len() == contents@.len(),
    ensures
        r@ == records(paths_of(files@), texts_of(contents@)),
        r@.len() == 0 <==> files@.len() == 0,
{
    let ghost paths = paths_of(files@);
    let ghost texts = texts_of(contents@);
    let mut out = String::new();
    let mut i: usize = 0;
    assert(paths.take(0).len() == 0);
    while i < files.len()
        invariant
            i <= files@.len(),
            files@.len() == contents@.len(),
            paths == paths_of(files@),
            texts == texts_of(contents@),
            out@ == records(paths.take(i as int), texts.take(i as int)),
            i > 0 ==> out@.len() > 0,
        decreases files@.len() - i,
    {
        let block = format_record(files[i].path.as_str(), contents[i].as_str());
        out.append(block.as_str());
        proof {
            assert(paths.take(i + 1).drop_last() =~= paths.take(i as int));
            assert(texts.take(i + 1).drop_last() =~= texts.take(i as int));
            lemma_record_nonempty(paths[i as int], texts[i as int]);
        }
        i = i + 1;
    }
    assert(paths.take(i as int) =~= paths);
    assert(texts.take(i as int) =~= texts);
    out
}

proof fn lemma_records_empty(paths: Seq<Seq<char>>, contents: Seq<Seq<char>>)
    requires
        paths.len() == contents.len(),
    ensures
        records(paths, contents).len() == 0 <==> paths.len() == 0,
{
    if paths.len() > 0 {
        lemma_record_nonempty(paths.last(), contents.last());
    }
}

proof fn lemma_matching_empty(entries: Seq<WalkEntry>, ext: Seq<char>)
    ensures
        matching(entries, ext).len() == 0 <==> forall|i: int|
            0 <= i < entries.len() ==> !is_selected(#[trigger] entries[i], ext),
    decreases entries.len(),
{
    if entries.len() > 0 {
        lemma_matching_empty(entries.drop_last(), ext);
        if matching(entries, ext).len() == 0 {
            assert forall|i: int| 0 <= i < entries.len() implies !is_selected(
                #[trigger] entries[i],
                ext,
            ) by {
                if i < entries.len() - 1 {
                    assert(entries[i] == entries.drop_last()[i]);
                }
            }
        }
        if forall|i: int| 0 <= i < entries.len() ==> !is_selected(#[trigger] entries[i], ext) {
            assert forall|i: int| 0 <= i < entries.drop_last().len() implies !is_selected(
                #[trigger] entries.drop_last()[i],
                ext,
            ) by {
                assert(entries[i] == entries.drop_last()[i]);
            }
            assert(!is_selected(entries[entries.len() - 1], ext));
        }
    }
}

/// The aggregated text of the files that a walk selects is empty exactly
/// when no regular file below the root has the extension.
pub proof fn lemma_empty_iff_nothing_matches(
    entries: Seq<WalkEntry>,
    ext: Seq<char>,
    contents: Seq<Seq<char>>,
)
    requires
        contents.len() == matching(entries, ext).len(),
    ensures
        records(matched_paths(matching(entries, ext)), contents).len() == 0 <==> forall|i: int|
            0 <= i < entries.len() ==> !is_selected(#[trigger] entries[i], ext),
{
    lemma_matching_empty(entries, ext);
    lemma_records_empty(matched_paths(matching(entries, ext)), contents);
}

/// `sub` stands in `s` at position `i`.
pub open spec fn occurs_at(s: Seq<char>, sub: Seq<char>, i: int) -> bool {
    0 <= i && i + sub.len() <= s.len() && s.subrange(i, i + sub.len()) == sub
}

/// For a single file with path `path` and contents `contents`, the
/// aggregated text is that file's block, which therefore occurs in it
/// exactly once.
pub proof fn lemma_single_file_round_trip(path: Seq<char>, contents: Seq<char>)
    ensures
        records(seq![path], seq![contents]) == "=== "@ + path + " ===\n"@ + contents + "\n\n"@,
        forall|i: int|
            #[trigger] occurs_at(records(seq![path], seq![contents]), record(path, contents), i)
                <==> i == 0,
{
    let one = records(seq![path], seq![contents]);
    assert(seq![path].drop_last() =~= Seq::<Seq<char>>::empty());
    assert(seq![contents].drop_last() =~= Seq::<Seq<char>>::empty());
    assert(records(seq![path].drop_last(), seq![contents].drop_last()) =~= Seq::<char>::empty());
    assert(seq![path].last() == path);
    assert(seq![contents].last() == contents);
    assert(one =~= record(path, contents));
    assert(one.subrange(0, one.len() as int) =~= one);
}

/// Selection depends only on what the walk reports of each entry.
proof fn lemma_matching_repeatable(e1: Seq<WalkEntry>, e2: Seq<WalkEntry>, ext: Seq<char>)
    requires
        e1.len() == e2.len(),
        forall|i: int|
            0 <= i < e1.len() ==> entry_view(#[trigger] e1[i]) == entry_view(e2[i])
                && is_selected(e1[i], ext) == is_selected(e2[i], ext),
    ensures
        matching(e1, ext) == matching(e2, ext),
    decreases e1.len(),
{
    if e1.len() > 0 {
        assert forall|i: int| 0 <= i < e1.drop_last().len() implies entry_view(
            #[trigger] e1.drop_last()[i],
        ) == entry_view(e2.drop_last()[i]) && is_selected(e1.drop_last()[i], ext) == is_selected(
            e2.drop_last()[i],
            ext,
        ) by {
            assert(e1.drop_last()[i] == e1[i]);
            assert(e2.drop_last()[i] == e2[i]);
        }
        lemma_matching_repeatable(e1.drop_last(), e2.drop_last(), ext);
        assert(entry_view(e1[e1.len() - 1]) == entry_view(e2[e2.len() - 1]));
    }
}

/// Two runs over walks that report the same entries, and reads that return
/// the same contents, select the same files and produce the same text.
pub proof fn lemma_aggregation_repeatable(
    e1: Seq<WalkEntry>,
    e2: Seq<WalkEntry>,
    ext: Seq<char>,
    contents: Seq<Seq<char>>,
)
    requires
        e1.len() == e2.len(),
        forall|i: int|
            0 <= i < e1.len() ==> entry_view(#[trigger] e1[i]) == entry_view(e2[i])
                && is_selected(e1[i], ext) == is_selected(e2[i], ext),
    ensures
        matching(e1, ext) == matching(e2, ext),
        records(matched_paths(matching(e1, ext)), contents) == records(
            matched_paths(matching(e2, ext)),
            contents,
        ),
{
    lemma_matching_repeatable(e1, e2, ext);
}

} // verus!

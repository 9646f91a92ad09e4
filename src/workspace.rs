use vstd::prelude::*;
use crate::index::{
    covering, lemma_lookup_exact, lemma_purge_keeps_lookup, lemma_purged_step,
    lemma_purged_add, lemma_replace_file_idempotent, named, purged, views, OccView, Occurrence, WorkspaceIndex,
};
use crate::indexer::{index_tokens, occurrences_in};
use crate::resolve::{resolution, sorted_by_place};
use crate::token::{
    parse, placed_tokens, ruby_parse, texts, token_views, Token, TokView,
};

verus! {

/// A source file as read from disk: its absolute path and its bytes.
pub struct SourceFile {
    pub path: String,
    pub text: Vec<u8>,
}

pub open spec fn source_views(s: Seq<SourceFile>) -> Seq<(Seq<char>, Seq<u8>)> {
    s.map_values(|f: SourceFile| (f.path@, f.text@))
}

/// The occurrences that indexing the file `path` with contents `src` records.
pub open spec fn file_occurrences(path: Seq<char>, src: Seq<u8>) -> Seq<OccView> {
    occurrences_in(path, placed_tokens(path, src), placed_tokens(path, src).len() as int)
}

/// `s` after (re-)indexing each of `files` in turn.
pub open spec fn with_files(s: Seq<OccView>, files: Seq<(Seq<char>, Seq<u8>)>) -> Seq<OccView>
    decreases files.len(),
{
    if files.len() == 0 {
        s
    } else {
        let f = files.last();
        purged(with_files(s, files.drop_last()), f.0) + file_occurrences(f.0, f.1)
    }
}

/// `s` after indexing the files of each root in turn.
pub open spec fn with_roots(s: Seq<OccView>, roots: Seq<Seq<(Seq<char>, Seq<u8>)>>) -> Seq<
    OccView,
>
    decreases roots.len(),
{
    if roots.len() == 0 {
        s
    } else {
        with_files(with_roots(s, roots.drop_last()), roots.last())
    }
}

proof fn lemma_occurrences_in_path(path: Seq<char>, t: Seq<crate::token::TokView>, n: int)
    ensures
        forall|i: int|
            0 <= i < occurrences_in(path, t, n).len() ==> (#[trigger] occurrences_in(
                path,
                t,
                n,
            )[i]).path == path,
    decreases n,
{
    if n > 0 {
        lemma_occurrences_in_path(path, t, n - 1);
        let prev = occurrences_in(path, t, n - 1);
        assert forall|i: int| 0 <= i < occurrences_in(path, t, n).len() implies (
        #[trigger] occurrences_in(path, t, n)[i]).path == path by {
            if i < prev.len() {
                assert(occurrences_in(path, t, n)[i] == prev[i]);
            }
        }
    }
}

/// Every occurrence recorded for a file carries that file's path.
pub proof fn lemma_file_occurrences_path(path: Seq<char>, src: Seq<u8>)
    ensures
        forall|i: int|
            0 <= i < file_occurrences(path, src).len() ==> (#[trigger] file_occurrences(
                path,
                src,
            )[i]).path == path,
{
    let t = placed_tokens(path, src);
    lemma_occurrences_in_path(path, t, t.len() as int);
}

/// Indexing the same contents of a file a second time leaves the index as
/// the first time left it: the file's occurrences are not duplicated.
pub proof fn lemma_add_file_idempotent(s: Seq<OccView>, path: Seq<char>, src: Seq<u8>)
    ensures
        purged(purged(s, path) + file_occurrences(path, src), path) + file_occurrences(path, src)
            == purged(s, path) + file_occurrences(path, src),
{
    lemma_file_occurrences_path(path, src);
    lemma_replace_file_idempotent(s, path, file_occurrences(path, src));
}

/// Lookups match names exactly: indexing files none of which records an
/// occurrence named `n` leaves the lookup of `n` unchanged, provided the
/// occurrences of `n` already indexed lie outside those files (they would be
/// purged with them).
pub proof fn lemma_add_path_keeps_other_names(
    s: Seq<OccView>,
    files: Seq<(Seq<char>, Seq<u8>)>,
    n: Seq<char>,
)
    requires
        forall|i: int, k: int|
            0 <= i < files.len() && 0 <= k < file_occurrences(files[i].0, files[i].1).len()
                ==> (#[trigger] file_occurrences(files[i].0, files[i].1)[k]).name != n,
        forall|j: int, i: int|
            0 <= j < named(s, n).len() && 0 <= i < files.len() ==> (#[trigger] named(s, n)[j]).path
                != (#[trigger] files[i]).0,
    ensures
        named(with_files(s, files), n) == named(s, n),
    decreases files.len(),
{
    if files.len() > 0 {
        let rest = files.drop_last();
        let f = files.last();
        assert forall|i: int, k: int|
            0 <= i < rest.len() && 0 <= k < file_occurrences(rest[i].0, rest[i].1).len()
                implies (#[trigger] file_occurrences(rest[i].0, rest[i].1)[k]).name != n by {
            assert(rest[i] == files[i]);
        }
        assert forall|j: int, i: int|
            0 <= j < named(s, n).len() && 0 <= i < rest.len() implies (#[trigger] named(s, n)[j]).path
                != (#[trigger] rest[i]).0 by {
            assert(rest[i] == files[i]);
        }
        lemma_add_path_keeps_other_names(s, rest, n);
        let w = with_files(s, rest);
        assert forall|j: int| 0 <= j < named(w, n).len() implies (#[trigger] named(w, n)[j]).path != f.0 by {
            assert(files[files.len() - 1] == f);
        }
        lemma_purge_keeps_lookup(w, f.0, n);
        let fo = file_occurrences(f.0, f.1);
        assert forall|k: int| 0 <= k < fo.len() implies (#[trigger] fo[k]).name != n by {
            assert(files[files.len() - 1] == f);
        }
        lemma_lookup_exact(purged(w, f.0), fo, n);
    }
}

/// `s` without the occurrences of any of `files`.
pub open spec fn purged_all(s: Seq<OccView>, files: Seq<(Seq<char>, Seq<u8>)>) -> Seq<OccView>
    decreases files.len(),
{
    if files.len() == 0 {
        s
    } else {
        purged(purged_all(s, files.drop_last()), files.last().0)
    }
}

proof fn lemma_purged_none(z: Seq<OccView>, p: Seq<char>)
    requires
        forall|k: int| 0 <= k < z.len() ==> (#[trigger] z[k]).path != p,
    ensures
        purged(z, p) == z,
    decreases z.len(),
{
    if z.len() == 0 {
        reveal(Seq::filter);
    } else {
        lemma_purged_step(z, p);
        lemma_purged_none(z.drop_last(), p);
        assert(z.drop_last().push(z.last()) =~= z);
    }
}

proof fn lemma_with_files_paths(files: Seq<(Seq<char>, Seq<u8>)>)
    ensures
        forall|k: int|
            0 <= k < with_files(Seq::empty(), files).len() ==> exists|i: int|
                0 <= i < files.len() && (#[trigger] with_files(Seq::empty(), files)[k]).path
                    == files[i].0,
    decreases files.len(),
{
    if files.len() > 0 {
        let rest = files.drop_last();
        let f = files.last();
        lemma_with_files_paths(rest);
        lemma_file_occurrences_path(f.0, f.1);
        let w0 = with_files(Seq::empty(), rest);
        let pw = purged(w0, f.0);
        let a = with_files(Seq::empty(), files);
        assert forall|k: int| 0 <= k < a.len() implies exists|i: int|
            0 <= i < files.len() && (#[trigger] a[k]).path == files[i].0 by {
            if k < pw.len() {
                assert(a[k] == pw[k]);
                lemma_purged_member(w0, f.0, k);
                let m = choose|m: int| 0 <= m < w0.len() && w0[m] == pw[k];
                let i = choose|i: int| 0 <= i < rest.len() && w0[m].path == rest[i].0;
                assert(files[i] == rest[i]);
            } else {
                assert(a[k] == file_occurrences(f.0, f.1)[k - pw.len()]);
                assert(files[files.len() - 1] == f);
            }
        }
    }
}

proof fn lemma_purged_all_member(s: Seq<OccView>, files: Seq<(Seq<char>, Seq<u8>)>, k: int)
    requires
        0 <= k < purged_all(s, files).len(),
    ensures
        exists|m: int| 0 <= m < s.len() && s[m] == purged_all(s, files)[k],
        forall|i: int| 0 <= i < files.len() ==> purged_all(s, files)[k].path != (#[trigger] files[i]).0,
    decreases files.len(),
{
    if files.len() > 0 {
        let rest = files.drop_last();
        let y = purged_all(s, rest);
        let p = files.last().0;
        lemma_purged_member(y, p, k);
        let m = choose|m: int| 0 <= m < y.len() && y[m] == purged(y, p)[k];
        lemma_purged_all_member(s, rest, m);
        let m2 = choose|m2: int| 0 <= m2 < s.len() && s[m2] == y[m];
        assert(s[m2] == purged_all(s, files)[k]);
        assert forall|i: int| 0 <= i < files.len() implies purged_all(s, files)[k].path
            != (#[trigger] files[i]).0 by {
            if i < rest.len() {
                assert(files[i] == rest[i]);
            }
        }
    } else {
        assert(s[k] == purged_all(s, files)[k]);
    }
}

proof fn lemma_purged_all_none(z: Seq<OccView>, files: Seq<(Seq<char>, Seq<u8>)>)
    requires
        forall|k: int, i: int| 0 <= k < z.len() && 0 <= i < files.len() ==> (#[trigger] z[k]).path != (#[trigger] files[i]).0,
    ensures
        purged_all(z, files) == z,
    decreases files.len(),
{
    if files.len() > 0 {
        let rest = files.drop_last();
        assert forall|k: int, i: int| 0 <= k < z.len() && 0 <= i < rest.len() implies (#[trigger] z[k]).path != (#[trigger] rest[i]).0 by {
            assert(rest[i] == files[i]);
        }
        lemma_purged_all_none(z, rest);
        assert forall|k: int| 0 <= k < z.len() implies (#[trigger] z[k]).path != files.last().0 by {
            assert(files[files.len() - 1] == files.last());
        }
        lemma_purged_none(z, files.last().0);
    }
}

proof fn lemma_purged_all_add(x: Seq<OccView>, y: Seq<OccView>, files: Seq<(Seq<char>, Seq<u8>)>)
    ensures
        purged_all(x + y, files) == purged_all(x, files) + purged_all(y, files),
    decreases files.len(),
{
    if files.len() > 0 {
        lemma_purged_all_add(x, y, files.drop_last());
        lemma_purged_add(purged_all(x, files.drop_last()), purged_all(y, files.drop_last()), files.last().0);
    }
}

/// Indexing a list of files leaves the old occurrences of other files,
/// followed by what indexing the list from scratch gives.
proof fn lemma_with_files_closed(s: Seq<OccView>, files: Seq<(Seq<char>, Seq<u8>)>)
    ensures
        with_files(s, files) == purged_all(s, files) + with_files(Seq::empty(), files),
    decreases files.len(),
{
    if files.len() == 0 {
        assert(s + Seq::<OccView>::empty() =~= s);
    } else {
        let rest = files.drop_last();
        let f = files.last();
        lemma_with_files_closed(s, rest);
        let a = purged_all(s, rest);
        let w = with_files(Seq::empty(), rest);
        lemma_purged_add(a, w, f.0);
        assert(purged(a, f.0) + purged(w, f.0) + file_occurrences(f.0, f.1) =~= purged(a, f.0) + (
        purged(w, f.0) + file_occurrences(f.0, f.1)));
    }
}

/// Indexing the same files a second time leaves the index as the first
/// time left it: no occurrence is duplicated, and every lookup is unchanged.
pub proof fn lemma_add_path_idempotent(s: Seq<OccView>, files: Seq<(Seq<char>, Seq<u8>)>)
    ensures
        with_files(with_files(s, files), files) == with_files(s, files),
        forall|n: Seq<char>|
            #[trigger] named(with_files(with_files(s, files), files), n) == named(
                with_files(s, files),
                n,
            ),
{
    lemma_with_files_closed(s, files);
    let a = purged_all(s, files);
    let b = with_files(Seq::<OccView>::empty(), files);
    lemma_with_files_closed(a + b, files);
    lemma_purged_all_add(a, b, files);
    assert forall|k: int, i: int| 0 <= k < a.len() && 0 <= i < files.len() implies (#[trigger] a[k]).path != (#[trigger] files[i]).0 by {
        lemma_purged_all_member(s, files, k);
    }
    lemma_purged_all_none(a, files);
    lemma_with_files_paths(files);
    if purged_all(b, files).len() > 0 {
        lemma_purged_all_member(b, files, 0);
        let m = choose|m: int| 0 <= m < b.len() && b[m] == purged_all(b, files)[0];
        let i = choose|i: int| 0 <= i < files.len() && b[m].path == files[i].0;
        assert(purged_all(b, files)[0].path != files[i].0);
    }
    assert(purged_all(b, files) =~= Seq::<OccView>::empty());
    assert(a + Seq::<OccView>::empty() =~= a);
}

/// What is kept of an indexed file besides its occurrences: its length in
/// bytes, and the tokens and the messages of the diagnostics of its last
/// parse.
pub struct FileEntry {
    pub path: String,
    pub length: usize,
    pub diagnostics: Vec<String>,
    pub tokens: Vec<Token>,
}

pub type FileView = (Seq<char>, nat, Seq<Seq<char>>, Seq<TokView>);

pub open spec fn entry_views(s: Seq<FileEntry>) -> Seq<FileView> {
    s.map_values(
        |e: FileEntry| (e.path@, e.length as nat, texts(e.diagnostics@), token_views(e.tokens@)),
    )
}

/// `s` without the entry of file `p`.
pub open spec fn without_file(s: Seq<FileView>, p: Seq<char>) -> Seq<FileView> {
    s.filter(|e: FileView| e.0 != p)
}

/// The entry that parsing `src` under the name `p` records.
pub open spec fn file_entry(p: Seq<char>, src: Seq<u8>) -> FileView {
    (p, src.len(), ruby_parse(p, src).1, placed_tokens(p, src))
}

/// The file entries after (re-)indexing each of `files` in turn.
pub open spec fn entries_with(s: Seq<FileView>, files: Seq<(Seq<char>, Seq<u8>)>) -> Seq<FileView>
    decreases files.len(),
{
    if files.len() == 0 {
        s
    } else {
        let f = files.last();
        without_file(entries_with(s, files.drop_last()), f.0).push(file_entry(f.0, f.1))
    }
}

/// The file entries after indexing the files of each root in turn.
pub open spec fn entries_with_roots(s: Seq<FileView>, roots: Seq<Seq<(Seq<char>, Seq<u8>)>>) -> Seq<
    FileView,
>
    decreases roots.len(),
{
    if roots.len() == 0 {
        s
    } else {
        entries_with(entries_with_roots(s, roots.drop_last()), roots.last())
    }
}

proof fn lemma_without_file_step(s: Seq<FileView>, p: Seq<char>)
    requires
        s.len() > 0,
    ensures
        without_file(s, p) == if s.last().0 != p {
            without_file(s.drop_last(), p).push(s.last())
        } else {
            without_file(s.drop_last(), p)
        },
{
    reveal(Seq::filter);
}

fn copy_texts(v: &Vec<String>) -> (r: Vec<String>)
    ensures
        texts(r@) == texts(v@),
{
    let mut r: Vec<String> = Vec::new();
    let mut i: usize = 0;
    while i < v.len()
        invariant
            i <= v@.len(),
            texts(r@) == texts(v@.take(i as int)),
        decreases v@.len() - i,
    {
        r.push(v[i].clone());
        assert(texts(v@.take(i + 1)) =~= texts(v@.take(i as int)).push(v@[i as int]@));
        i = i + 1;
    }
    assert(v@.take(v@.len() as int) =~= v@);
    r
}

fn copy_tokens(v: &Vec<Token>) -> (r: Vec<Token>)
    ensures
        token_views(r@) == token_views(v@),
{
    let mut r: Vec<Token> = Vec::new();
    let mut i: usize = 0;
    while i < v.len()
        invariant
            i <= v@.len(),
            token_views(r@) == token_views(v@.take(i as int)),
        decreases v@.len() - i,
    {
        let t = &v[i];
        r.push(Token { kind: t.kind, text: t.text.clone(), line: t.line, column: t.column, width: t.width });
        assert(token_views(v@.take(i + 1)) =~= token_views(v@.take(i as int)).push(token_views(v@)[i as int]));
        assert(token_views(r@) =~= token_views(r@.drop_last()).push(token_views(v@)[i as int]));
        i = i + 1;
    }
    assert(v@.take(v@.len() as int) =~= v@);
    r
}

/// Drops the entry of file `path`, if any.
fn drop_entry(files: &mut Vec<FileEntry>, path: &String)
    ensures
        entry_views(final(files)@) == without_file(entry_views(old(files)@), path@),
{
    let mut kept: Vec<FileEntry> = Vec::new();
    let mut i: usize = 0;
    while i < files.len()
        invariant
            i <= files@.len(),
            entry_views(kept@) == without_file(entry_views(files@.take(i as int)), path@),
        decreases files@.len() - i,
    {
        let ghost prefix = files@.take(i + 1);
        assert(prefix =~= files@.take(i as int).push(files@[i as int]));
        assert(entry_views(prefix).drop_last() =~= entry_views(files@.take(i as int)));
        proof {
            lemma_without_file_step(entry_views(prefix), path@);
        }
        let e = &files[i];
        if e.path != *path {
            let ghost before = kept@;
            kept.push(FileEntry {
                path: e.path.clone(),
                length: e.length,
                diagnostics: copy_texts(&e.diagnostics),
                tokens: copy_tokens(&e.tokens),
            });
            assert(entry_views(kept@) =~= entry_views(before).push(entry_views(prefix).last()));
        }
        i = i + 1;
    }
    assert(files@.take(files@.len() as int) =~= files@);
    *files = kept;
}

/// No two file entries share a path.
pub open spec fn unique_paths(e: Seq<FileView>) -> bool {
    forall|i: int, j: int| 0 <= i < e.len() && 0 <= j < e.len() && i != j ==> #[trigger] e[i].0 != #[trigger] e[j].0
}

/// The path of occurrence `o` has an entry in `e`.
pub open spec fn has_entry(e: Seq<FileView>, o: OccView) -> bool {
    exists|i: int| 0 <= i < e.len() && #[trigger] e[i].0 == o.path
}

/// The occurrences of `s` attributed to file `q`.
pub open spec fn of_file(s: Seq<OccView>, q: Seq<char>) -> Seq<OccView> {
    s.filter(|o: OccView| o.path == q)
}

/// The occurrences that a file entry's stored tokens yield.
pub open spec fn entry_occurrences(e: FileView) -> Seq<OccView> {
    occurrences_in(e.0, e.3, e.3.len() as int)
}

proof fn lemma_without_none(w: Seq<FileView>, p: Seq<char>)
    requires
        forall|k: int| 0 <= k < w.len() ==> (#[trigger] w[k]).0 != p,
    ensures
        without_file(w, p) == w,
    decreases w.len(),
{
    if w.len() == 0 {
        reveal(Seq::filter);
    } else {
        lemma_without_file_step(w, p);
        lemma_without_none(w.drop_last(), p);
        assert(w.drop_last().push(w.last()) =~= w);
    }
}

proof fn lemma_without_twice(e: Seq<FileView>, p: Seq<char>, x: FileView)
    requires
        x.0 == p,
    ensures
        without_file(without_file(e, p).push(x), p).push(x) == without_file(e, p).push(x),
{
    let w = without_file(e, p);
    let v = w.push(x);
    assert forall|k: int| 0 <= k < w.len() implies (#[trigger] w[k]).0 != p by {
        lemma_without_member(e, p, k);
    }
    lemma_without_file_step(v, p);
    assert(v.drop_last() =~= w);
    lemma_without_none(w, p);
}

/// Indexing the same contents of a file a second time leaves both the index
/// and the file entries as the first time left them.
pub proof fn lemma_add_file_twice(o: Seq<OccView>, e: Seq<FileView>, p: Seq<char>, src: Seq<u8>)
    ensures
        purged(purged(o, p) + file_occurrences(p, src), p) + file_occurrences(p, src) == purged(o, p)
            + file_occurrences(p, src),
        without_file(without_file(e, p).push(file_entry(p, src)), p).push(file_entry(p, src))
            == without_file(e, p).push(file_entry(p, src)),
{
    lemma_add_file_idempotent(o, p, src);
    lemma_without_twice(e, p, file_entry(p, src));
}

/// Every occurrence belongs to exactly one file entry, and the occurrences
/// of each file are exactly those that its stored tokens yield.
pub open spec fn consistent(o: Seq<OccView>, e: Seq<FileView>) -> bool {
    &&& unique_paths(e)
    &&& forall|k: int| 0 <= k < o.len() ==> has_entry(e, #[trigger] o[k])
    &&& forall|i: int| 0 <= i < e.len() ==> of_file(o, (#[trigger] e[i]).0) == entry_occurrences(e[i])
}

proof fn lemma_of_file_step(s: Seq<OccView>, q: Seq<char>)
    requires
        s.len() > 0,
    ensures
        of_file(s, q) == if s.last().path == q {
            of_file(s.drop_last(), q).push(s.last())
        } else {
            of_file(s.drop_last(), q)
        },
{
    reveal(Seq::filter);
}

proof fn lemma_of_file_add(a: Seq<OccView>, b: Seq<OccView>, q: Seq<char>)
    ensures
        of_file(a + b, q) == of_file(a, q) + of_file(b, q),
    decreases b.len(),
{
    if b.len() == 0 {
        assert(a + b =~= a);
        reveal(Seq::filter);
        assert(of_file(a, q) + of_file(b, q) =~= of_file(a, q));
    } else {
        lemma_of_file_add(a, b.drop_last(), q);
        assert((a + b).drop_last() =~= a + b.drop_last());
        lemma_of_file_step(a + b, q);
        lemma_of_file_step(b, q);
        assert((of_file(a, q) + of_file(b.drop_last(), q)).push(b.last()) =~= of_file(a, q)
            + of_file(b.drop_last(), q).push(b.last()));
    }
}

proof fn lemma_of_file_none(s: Seq<OccView>, q: Seq<char>)
    requires
        forall|k: int| 0 <= k < s.len() ==> (#[trigger] s[k]).path != q,
    ensures
        of_file(s, q) == Seq::<OccView>::empty(),
    decreases s.len(),
{
    if s.len() == 0 {
        reveal(Seq::filter);
    } else {
        lemma_of_file_step(s, q);
        lemma_of_file_none(s.drop_last(), q);
    }
}

proof fn lemma_of_file_all(s: Seq<OccView>, q: Seq<char>)
    requires
        forall|k: int| 0 <= k < s.len() ==> (#[trigger] s[k]).path == q,
    ensures
        of_file(s, q) == s,
    decreases s.len(),
{
    if s.len() == 0 {
        reveal(Seq::filter);
    } else {
        lemma_of_file_step(s, q);
        lemma_of_file_all(s.drop_last(), q);
        assert(s.drop_last().push(s.last()) =~= s);
    }
}

proof fn lemma_of_file_purged(s: Seq<OccView>, p: Seq<char>, q: Seq<char>)
    ensures
        of_file(purged(s, p), q) == if p == q { Seq::<OccView>::empty() } else { of_file(s, q) },
    decreases s.len(),
{
    if s.len() == 0 {
        reveal(Seq::filter);
    } else {
        lemma_of_file_purged(s.drop_last(), p, q);
        lemma_purged_step(s, p);
        lemma_of_file_step(s, q);
        if s.last().path != p {
            let z = purged(s.drop_last(), p).push(s.last());
            assert(z.drop_last() =~= purged(s.drop_last(), p));
            lemma_of_file_step(z, q);
        }
    }
}

proof fn lemma_purged_member(s: Seq<OccView>, p: Seq<char>, j: int)
    requires
        0 <= j < purged(s, p).len(),
    ensures
        purged(s, p)[j].path != p,
        exists|i: int| 0 <= i < s.len() && s[i] == purged(s, p)[j],
    decreases s.len(),
{
    lemma_purged_step(s, p);
    if s.last().path != p && j == purged(s, p).len() - 1 {
        assert(s[s.len() - 1] == purged(s, p)[j]);
    } else {
        lemma_purged_member(s.drop_last(), p, j);
        let i = choose|i: int| 0 <= i < s.drop_last().len() && s.drop_last()[i] == purged(s.drop_last(), p)[j];
        assert(s[i] == purged(s, p)[j]);
    }
}

proof fn lemma_without_member(e: Seq<FileView>, p: Seq<char>, j: int)
    requires
        0 <= j < without_file(e, p).len(),
    ensures
        without_file(e, p)[j].0 != p,
        exists|i: int| 0 <= i < e.len() - 0 && e[i] == without_file(e, p)[j],
    decreases e.len(),
{
    lemma_without_file_step(e, p);
    if e.last().0 != p && j == without_file(e, p).len() - 1 {
        assert(e[e.len() - 1] == without_file(e, p)[j]);
    } else {
        lemma_without_member(e.drop_last(), p, j);
        let i = choose|i: int| 0 <= i < e.drop_last().len() && e.drop_last()[i] == without_file(e.drop_last(), p)[j];
        assert(e[i] == without_file(e, p)[j]);
    }
}

proof fn lemma_without_keeps(e: Seq<FileView>, p: Seq<char>, i: int)
    requires
        0 <= i < e.len(),
        e[i].0 != p,
    ensures
        exists|j: int| 0 <= j < without_file(e, p).len() && without_file(e, p)[j] == e[i],
    decreases e.len(),
{
    lemma_without_file_step(e, p);
    if i == e.len() - 1 {
        assert(without_file(e, p)[without_file(e, p).len() - 1] == e[i]);
    } else {
        lemma_without_keeps(e.drop_last(), p, i);
        let j = choose|j: int| 0 <= j < without_file(e.drop_last(), p).len() && without_file(e.drop_last(), p)[j] == e.drop_last()[i];
        assert(without_file(e, p)[j] == e[i]);
    }
}

proof fn lemma_without_unique(e: Seq<FileView>, p: Seq<char>)
    requires
        unique_paths(e),
    ensures
        unique_paths(without_file(e, p)),
    decreases e.len(),
{
    if e.len() == 0 {
        reveal(Seq::filter);
    } else {
        lemma_without_file_step(e, p);
        assert(unique_paths(e.drop_last())) by {
            assert forall|i: int, j: int| 0 <= i < e.drop_last().len() && 0 <= j < e.drop_last().len() && i != j implies #[trigger] e.drop_last()[i].0 != #[trigger] e.drop_last()[j].0 by {
                assert(e.drop_last()[i] == e[i] && e.drop_last()[j] == e[j]);
            }
        }
        lemma_without_unique(e.drop_last(), p);
        let w = without_file(e.drop_last(), p);
        if e.last().0 != p {
            assert forall|j: int| 0 <= j < w.len() implies w[j].0 != e.last().0 by {
                lemma_without_member(e.drop_last(), p, j);
                let i = choose|i: int| 0 <= i < e.drop_last().len() && e.drop_last()[i] == w[j];
                assert(e[i] == w[j]);
                assert(e[i].0 != e[e.len() - 1].0);
            }
            let v = w.push(e.last());
            assert forall|i: int, j: int| 0 <= i < v.len() && 0 <= j < v.len() && i != j implies #[trigger] v[i].0 != #[trigger] v[j].0 by {
                if i < w.len() && j < w.len() {
                    assert(v[i] == w[i] && v[j] == w[j]);
                } else if i < w.len() {
                    assert(v[i] == w[i]);
                } else if j < w.len() {
                    assert(v[j] == w[j]);
                }
            }
        }
    }
}

/// Removing a file keeps the index and the entries consistent.
proof fn lemma_consistent_remove(o: Seq<OccView>, e: Seq<FileView>, p: Seq<char>)
    requires
        consistent(o, e),
    ensures
        consistent(purged(o, p), without_file(e, p)),
{
    lemma_without_unique(e, p);
    let po = purged(o, p);
    assert forall|k: int| 0 <= k < po.len() implies has_entry(without_file(e, p), #[trigger] po[k]) by {
        lemma_purged_member(o, p, k);
        let m = choose|m: int| 0 <= m < o.len() && o[m] == po[k];
        assert(has_entry(e, o[m]));
        let i = choose|i: int| 0 <= i < e.len() && #[trigger] e[i].0 == o[m].path;
        lemma_without_keeps(e, p, i);
        let j = choose|j: int| 0 <= j < without_file(e, p).len() && without_file(e, p)[j] == e[i];
        assert(without_file(e, p)[j].0 == po[k].path);
    }    let w = without_file(e, p);
    assert forall|i: int| 0 <= i < w.len() implies of_file(po, (#[trigger] w[i]).0) == entry_occurrences(w[i]) by {
        lemma_without_member(e, p, i);
        let m = choose|m: int| 0 <= m < e.len() - 0 && e[m] == w[i];
        assert(of_file(o, e[m].0) == entry_occurrences(e[m]));
        lemma_of_file_purged(o, p, w[i].0);
    }
}

/// (Re-)indexing a file keeps the index and the entries consistent.
proof fn lemma_consistent_add(o: Seq<OccView>, e: Seq<FileView>, p: Seq<char>, src: Seq<u8>)
    requires
        consistent(o, e),
    ensures
        consistent(
            purged(o, p) + file_occurrences(p, src),
            without_file(e, p).push(file_entry(p, src)),
        ),
{
    lemma_consistent_remove(o, e, p);
    lemma_file_occurrences_path(p, src);
    let w = without_file(e, p);
    let v = w.push(file_entry(p, src));
    let no = purged(o, p) + file_occurrences(p, src);
    assert forall|j: int| 0 <= j < w.len() implies w[j].0 != p by {
        lemma_without_member(e, p, j);
    }
    assert forall|i: int, j: int| 0 <= i < v.len() && 0 <= j < v.len() && i != j implies #[trigger] v[i].0 != #[trigger] v[j].0 by {
        if i < w.len() && j < w.len() {
            assert(v[i] == w[i] && v[j] == w[j]);
        } else if i < w.len() {
            assert(v[i] == w[i]);
        } else if j < w.len() {
            assert(v[j] == w[j]);
        }
    }
    assert forall|k: int| 0 <= k < no.len() implies has_entry(v, #[trigger] no[k]) by {
        if k < purged(o, p).len() {
            assert(no[k] == purged(o, p)[k]);
            let i = choose|i: int| 0 <= i < w.len() && #[trigger] w[i].0 == purged(o, p)[k].path;
            assert(v[i] == w[i]);
        } else {
            assert(no[k] == file_occurrences(p, src)[k - purged(o, p).len()]);
            assert(v[w.len() as int].0 == p);
        }
    }    let f = file_occurrences(p, src);
    let po = purged(o, p);
    assert forall|i: int| 0 <= i < v.len() implies of_file(no, (#[trigger] v[i]).0) == entry_occurrences(v[i]) by {
        lemma_of_file_add(po, f, v[i].0);
        if i < w.len() {
            assert(v[i] == w[i]);
            assert(w[i].0 != p);
            lemma_of_file_none(f, w[i].0);
            assert(of_file(po, w[i].0) == entry_occurrences(w[i]));
            assert(of_file(po, w[i].0) + Seq::<OccView>::empty() =~= of_file(po, w[i].0));
        } else {
            assert(v[i] == file_entry(p, src));
            lemma_of_file_purged(o, p, p);
            lemma_of_file_all(f, p);
            assert(Seq::<OccView>::empty() + f =~= f);
        }
    }
}

/// The symbol index of a set of workspace roots, with an entry per indexed
/// file.
pub struct Workspace {
    index: WorkspaceIndex,
    files: Vec<FileEntry>,
}

impl Workspace {
    /// The occurrences of the index.
    pub closed spec fn occs(&self) -> Seq<OccView> {
        self.index@
    }

    /// The file entries.
    pub closed spec fn entries(&self) -> Seq<FileView> {
        entry_views(self.files@)
    }

    /// Every occurrence of the index belongs to exactly one file entry.
    pub open spec fn wf(&self) -> bool {
        consistent(self.occs(), self.entries())
    }

    pub fn index(&self) -> (r: &WorkspaceIndex)
        ensures
            r@ == self.occs(),
    {
        &self.index
    }

    pub fn files(&self) -> (r: &Vec<FileEntry>)
        ensures
            entry_views(r@) == self.entries(),
    {
        &self.files
    }

    pub fn new() -> (r: Workspace)
        ensures
            r.occs() == Seq::<OccView>::empty(),
            r.entries() == Seq::<FileView>::empty(),
            r.wf(),
    {
        let r = Workspace { index: WorkspaceIndex::new(), files: Vec::new() };
        assert(r.entries() =~= Seq::<FileView>::empty());
        r
    }

    /// A workspace holding the files found under several roots.
    pub fn from_paths(roots: Vec<Vec<SourceFile>>) -> (r: Workspace)
        ensures
            r.occs() == with_roots(
                Seq::empty(),
                roots@.map_values(|fs: Vec<SourceFile>| source_views(fs@)),
            ),
            r.entries() == entries_with_roots(
                Seq::empty(),
                roots@.map_values(|fs: Vec<SourceFile>| source_views(fs@)),
            ),
            r.wf(),
    {
        let ghost rv = roots@.map_values(|fs: Vec<SourceFile>| source_views(fs@));
        let mut workspace = Workspace::new();
        let mut i: usize = 0;
        while i < roots.len()
            invariant
                i <= roots@.len(),
                rv == roots@.map_values(|fs: Vec<SourceFile>| source_views(fs@)),
                workspace.occs() == with_roots(Seq::empty(), rv.take(i as int)),
                workspace.entries() == entries_with_roots(Seq::empty(), rv.take(i as int)),
                workspace.wf(),
            decreases roots@.len() - i,
        {
            workspace.add_path(&roots[i]);
            assert(rv.take(i + 1).drop_last() =~= rv.take(i as int));
            i = i + 1;
        }
        assert(rv.take(roots@.len() as int) =~= rv);
        workspace
    }

    /// A workspace holding the files found under one root.
    pub fn from_path(files: Vec<SourceFile>) -> (r: Workspace)
        ensures
            r.occs() == with_files(Seq::empty(), source_views(files@)),
            r.entries() == entries_with(Seq::empty(), source_views(files@)),
            r.wf(),
    {
        let mut workspace = Workspace::new();
        workspace.add_path(&files);
        workspace
    }

    /// Indexes (or re-indexes) one file, replacing what was recorded for it.
    pub fn add_file(&mut self, path: &String, text: Vec<u8>)
        requires
            old(self).wf(),
        ensures
            final(self).wf(),
            final(self).occs() == purged(old(self).occs(), path@) + file_occurrences(
                path@,
                text@,
            ),
            final(self).entries() == without_file(old(self).entries(), path@).push(
                file_entry(path@, text@),
            ),
    {
        let length = text.len();
        let ghost src = text@;
        let parsed = parse(path, text);
        let occurrences = index_tokens(path, &parsed.tokens);
        self.index.replace_file(path, occurrences);
        let diagnostics = parsed.diagnostics;
        let tokens = parsed.tokens;
        drop_entry(&mut self.files, path);
        let ghost before = self.files@;
        self.files.push(FileEntry { path: path.clone(), length, diagnostics, tokens });
        assert(self.entries() =~= entry_views(before).push(file_entry(path@, text@)));
        proof {
            lemma_consistent_add(old(self).occs(), old(self).entries(), path@, src);
        }
    }

    /// Forgets everything recorded for a file.
    pub fn remove_file(&mut self, path: &String)
        requires
            old(self).wf(),
        ensures
            final(self).wf(),
            final(self).occs() == purged(old(self).occs(), path@),
            final(self).entries() == without_file(old(self).entries(), path@),
    {
        self.index.remove_file(path);
        drop_entry(&mut self.files, path);
        proof {
            lemma_consistent_remove(old(self).occs(), old(self).entries(), path@);
        }
    }

    /// Follows a rename: forgets the old path, then indexes the file under
    /// its new path.
    pub fn rename_file(&mut self, old_path: &String, new_path: &String, text: Vec<u8>)
        requires
            old(self).wf(),
        ensures
            final(self).wf(),
            final(self).occs() == purged(purged(old(self).occs(), old_path@), new_path@)
                + file_occurrences(new_path@, text@),
            final(self).entries() == without_file(
                without_file(old(self).entries(), old_path@),
                new_path@,
            ).push(file_entry(new_path@, text@)),
    {
        self.remove_file(old_path);
        self.add_file(new_path, text);
    }

    /// Indexes the files found under a root, in the order given.
    pub fn add_path(&mut self, files: &Vec<SourceFile>)
        requires
            old(self).wf(),
        ensures
            final(self).wf(),
            final(self).occs() == with_files(old(self).occs(), source_views(files@)),
            final(self).entries() == entries_with(
                old(self).entries(),
                source_views(files@),
            ),
    {
        let ghost start = self.occs();
        let ghost start_files = self.entries();
        let ghost fv = source_views(files@);
        let mut i: usize = 0;
        while i < files.len()
            invariant
                i <= files@.len(),
                fv == source_views(files@),
                self.occs() == with_files(start, fv.take(i as int)),
                self.entries() == entries_with(start_files, fv.take(i as int)),
                self.wf(),
            decreases files@.len() - i,
        {
            let f = &files[i];
            self.add_file(&f.path, f.text.clone());
            assert(fv.take(i + 1).drop_last() =~= fv.take(i as int));
            i = i + 1;
        }
        assert(fv.take(files@.len() as int) =~= fv);
    }

    /// The declarations that the constant at column `column` of line `line`
    /// in file `path` resolves to, ordered by file path then line; empty when
    /// no constant stands there or nothing declares it.
    pub fn definition(&self, path: &String, line: usize, column: usize) -> (r: Vec<Occurrence>)
        ensures
            covering(self.occs(), path@, line as nat, column as nat).len() == 0 ==> r@.len() == 0,
            covering(self.occs(), path@, line as nat, column as nat).len() > 0 ==> ({
                let o = covering(self.occs(), path@, line as nat, column as nat)[0];
                views(r@).to_multiset() == resolution(
                    self.occs(),
                    o.name,
                    o.scope,
                    o.scope.len(),
                ).to_multiset() && r@.len() == resolution(
                    self.occs(),
                    o.name,
                    o.scope,
                    o.scope.len(),
                ).len()
            }),
            sorted_by_place(views(r@)),
    {
        match self.index.occurrence_at(path, line, column) {
            Some(o) => self.index.resolve(&o.name, &o.scope),
            None => {
                let r: Vec<Occurrence> = Vec::new();
                assert(views(r@) =~= Seq::<OccView>::empty());
                r
            },
        }
    }
}

} // verus!

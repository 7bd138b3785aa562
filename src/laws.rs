use vstd::prelude::*;

use crate::collect::{
    byte_len, collect_spec, content_view, empty_frame, file_step, merge_prefix, outcome_view, walk,
    CollectError, Entry, ErrorV, FrameV, Progress,
};
use crate::files::{
    has_key, insert_pair, key_index, lemma_insert_existing, lemma_key_index, FileMap, Pair,
};
use crate::limits::{has_extension, LimitsV};

verus! {

/// Every name in `s` has the extension `ext`.
pub open spec fn names_have_extension(s: Seq<Pair>, ext: Seq<char>) -> bool {
    forall|i: int| 0 <= i < s.len() ==> has_extension(#[trigger] s[i].0, ext)
}

proof fn lemma_insert_keeps_names(s: Seq<Pair>, k: Seq<char>, v: Seq<char>, ext: Seq<char>)
    requires
        names_have_extension(s, ext),
        has_extension(k, ext),
    ensures
        names_have_extension(insert_pair(s, k, v), ext),
{
    let t = insert_pair(s, k, v);
    lemma_key_index(s, k);
    if has_key(s, k) {
        let c = lemma_insert_existing(s, k, v);
        assert forall|i: int| 0 <= i < t.len() implies has_extension(#[trigger] t[i].0, ext) by {
            if i != c {
                assert(t[i] == s[i]);
            }
        }
    } else {
        assert forall|i: int| 0 <= i < t.len() implies has_extension(#[trigger] t[i].0, ext) by {
            if i < s.len() {
                assert(t[i] == s[i]);
            }
        }
    }
}

/// The frame that a walk or a merge holds, whether it runs or has stopped.
pub open spec fn frame_of(p: Progress) -> Option<FrameV> {
    match p {
        Progress::Running(f) => Some(f),
        Progress::Stopped(f) => Some(f),
        Progress::Failed(_) => None,
    }
}

proof fn lemma_merge_keeps_names(f: FrameV, sub: Seq<Pair>, k: int, max_total: int, ext: Seq<char>)
    requires
        names_have_extension(f.files, ext),
        names_have_extension(sub, ext),
        0 <= k <= sub.len(),
    ensures
        frame_of(merge_prefix(f, sub, k, max_total)) matches Some(g) && names_have_extension(g.files, ext),
    decreases k,
{
    if k > 0 {
        lemma_merge_keeps_names(f, sub, k - 1, max_total, ext);
        if let Progress::Running(g) = merge_prefix(f, sub, k - 1, max_total) {
            lemma_insert_keeps_names(g.files, sub[k - 1].0, sub[k - 1].1, ext);
        }
    }
}

/// Filtering: every file in a collection has the extension of the limits,
/// at any depth of the tree.
pub proof fn lemma_collect_names_have_extension(es: Seq<Entry>, recurse: bool, lim: LimitsV)
    ensures
        collect_spec(es, recurse, lim) matches Ok(files) ==> names_have_extension(files, lim.extension),
    decreases es, es.len() + 1,
{
    lemma_walk_names_have_extension(es, es.len() as int, recurse, lim);
}

proof fn lemma_walk_names_have_extension(es: Seq<Entry>, k: int, recurse: bool, lim: LimitsV)
    ensures
        frame_of(walk(es, k, recurse, lim)) matches Some(g) ==> names_have_extension(g.files, lim.extension),
    decreases es, k,
{
    if k <= 0 || k > es.len() {
    } else {
        lemma_walk_names_have_extension(es, k - 1, recurse, lim);
        if let Progress::Running(f) = walk(es, k - 1, recurse, lim) {
            match es[k - 1] {
                Entry::Dir { entries, .. } => {
                    if recurse {
                        lemma_collect_names_have_extension(entries@, recurse, lim);
                        if let Ok(sub) = collect_spec(entries@, recurse, lim) {
                            lemma_merge_keeps_names(f, sub, sub.len() as int, lim.max_total_size, lim.extension);
                        }
                    }
                },
                Entry::File { name, size, content } => {
                    if has_extension(name@, lim.extension) {
                        if let Some(c) = content_view(content) {
                            lemma_insert_keeps_names(f.files, name@, c, lim.extension);
                        }
                    }
                },
            }
        }
    }
}

/// A file over the per-file ceiling is left out, and the walk goes on past
/// it: the directory collects as though the file were not there.
pub proof fn lemma_oversized_file_is_left_out(es: Seq<Entry>, i: int, recurse: bool, lim: LimitsV)
    requires
        0 <= i < es.len(),
        es[i] matches Entry::File { size, .. } && size > lim.max_file_size,
    ensures
        collect_spec(es, recurse, lim) == collect_spec(es.remove(i), recurse, lim),
{
    lemma_walk_without(es, i, es.len() as int, recurse, lim);
}

proof fn lemma_walk_without(es: Seq<Entry>, i: int, k: int, recurse: bool, lim: LimitsV)
    requires
        0 <= i < es.len(),
        es[i] matches Entry::File { size, .. } && size > lim.max_file_size,
        0 <= k <= es.len(),
    ensures
        k <= i ==> walk(es, k, recurse, lim) == walk(es.remove(i), k, recurse, lim),
        k > i ==> walk(es, k, recurse, lim) == walk(es.remove(i), k - 1, recurse, lim),
    decreases k,
{
    let rs = es.remove(i);
    if k > 0 {
        lemma_walk_without(es, i, k - 1, recurse, lim);
        if k - 1 < i {
            assert(es[k - 1] == rs[k - 1]);
        } else if k - 1 == i {
        } else {
            assert(es[k - 1] == rs[k - 2]);
        }
    }
}

/// The bytes of all the contents of `s`.
pub open spec fn content_bytes(s: Seq<Pair>) -> int
    decreases s.len(),
{
    if s.len() == 0 {
        0
    } else {
        content_bytes(s.drop_last()) + byte_len(s.last().1)
    }
}

/// Among the first `k` entries of `es`, at any depth, no file's text takes
/// more bytes than its size on disk says.
pub open spec fn sizes_cover_contents(es: Seq<Entry>, k: int) -> bool
    decreases es, k,
{
    if k <= 0 || k > es.len() {
        true
    } else {
        &&& sizes_cover_contents(es, k - 1)
        &&& match es[k - 1] {
            Entry::File { size, content, .. } => match content {
                Some(c) => byte_len(c@) <= size,
                None => true,
            },
            Entry::Dir { entries, .. } => sizes_cover_contents(entries@, entries@.len() as int),
        }
    }
}

proof fn lemma_content_bytes_update(s: Seq<Pair>, i: int, x: Pair)
    requires
        0 <= i < s.len(),
    ensures
        content_bytes(s.update(i, x)) == content_bytes(s) - byte_len(s[i].1) + byte_len(x.1),
    decreases s.len(),
{
    let t = s.update(i, x);
    if i == s.len() - 1 {
        assert(t.drop_last() =~= s.drop_last());
    } else {
        lemma_content_bytes_update(s.drop_last(), i, x);
        assert(t.drop_last() =~= s.drop_last().update(i, x));
    }
}

proof fn lemma_content_bytes_insert(s: Seq<Pair>, k: Seq<char>, v: Seq<char>)
    ensures
        content_bytes(insert_pair(s, k, v)) <= content_bytes(s) + byte_len(v),
{
    lemma_key_index(s, k);
    let i = key_index(s, k);
    if i >= 0 {
        lemma_content_bytes_update(s, i, (k, v));
    } else {
        assert(s.push((k, v)).drop_last() =~= s);
    }
}

/// The contents of `f` take no more bytes than its total, and the total is
/// within `max_total`.
pub open spec fn frame_within(f: FrameV, max_total: int) -> bool {
    0 <= content_bytes(f.files) <= f.total <= max_total
}

proof fn lemma_content_bytes_nonneg(s: Seq<Pair>)
    ensures
        content_bytes(s) >= 0,
    decreases s.len(),
{
    if s.len() > 0 {
        lemma_content_bytes_nonneg(s.drop_last());
    }
}

proof fn lemma_merge_within(f: FrameV, sub: Seq<Pair>, k: int, max_total: int)
    requires
        frame_within(f, max_total),
    ensures
        frame_of(merge_prefix(f, sub, k, max_total)) matches Some(g) && frame_within(g, max_total),
    decreases k,
{
    if k > 0 {
        lemma_merge_within(f, sub, k - 1, max_total);
        if let Progress::Running(g) = merge_prefix(f, sub, k - 1, max_total) {
            lemma_content_bytes_insert(g.files, sub[k - 1].0, sub[k - 1].1);
            lemma_content_bytes_nonneg(insert_pair(g.files, sub[k - 1].0, sub[k - 1].1));
        }
    }
}

/// The aggregate ceiling: where no file's text is longer in bytes than its
/// size on disk, the contents of a collection take at most the aggregate
/// ceiling in bytes.
pub proof fn lemma_collect_within_ceiling(es: Seq<Entry>, recurse: bool, lim: LimitsV)
    requires
        lim.max_total_size >= 0,
        sizes_cover_contents(es, es.len() as int),
    ensures
        collect_spec(es, recurse, lim) matches Ok(files) ==> content_bytes(files) <= lim.max_total_size,
    decreases es, es.len() + 1,
{
    lemma_walk_within(es, es.len() as int, recurse, lim);
}

proof fn lemma_walk_within(es: Seq<Entry>, k: int, recurse: bool, lim: LimitsV)
    requires
        lim.max_total_size >= 0,
        sizes_cover_contents(es, k),
    ensures
        frame_of(walk(es, k, recurse, lim)) matches Some(g) ==> frame_within(g, lim.max_total_size),
    decreases es, k,
{
    if k <= 0 || k > es.len() {
    } else {
        lemma_walk_within(es, k - 1, recurse, lim);
        if let Progress::Running(f) = walk(es, k - 1, recurse, lim) {
            match es[k - 1] {
                Entry::Dir { entries, .. } => {
                    if recurse {
                        lemma_collect_within_ceiling(entries@, recurse, lim);
                        if let Ok(sub) = collect_spec(entries@, recurse, lim) {
                            lemma_merge_within(f, sub, sub.len() as int, lim.max_total_size);
                        }
                    }
                },
                Entry::File { name, size, content } => {
                    if has_extension(name@, lim.extension) {
                        if let Some(c) = content_view(content) {
                            lemma_content_bytes_insert(f.files, name@, c);
                            lemma_content_bytes_nonneg(insert_pair(f.files, name@, c));
                        }
                    }
                },
            }
        }
    }
}

proof fn lemma_has_key_insert(s: Seq<Pair>, k: Seq<char>, v: Seq<char>, n: Seq<char>)
    ensures
        has_key(insert_pair(s, k, v), n) <==> (has_key(s, n) || n == k),
{
    lemma_key_index(s, k);
    let i = key_index(s, k);
    let t = insert_pair(s, k, v);
    if has_key(t, n) {
        let j = choose|j: int| 0 <= j < t.len() && t[j].0 == n;
        if j < s.len() && t[j] == s[j] {
            assert(has_key(s, n));
        }
    }
    if has_key(s, n) {
        let j = choose|j: int| 0 <= j < s.len() && s[j].0 == n;
        if i >= 0 && j == i {
            assert(t[i].0 == k);
        } else {
            assert(t[j] == s[j]);
        }
        assert(has_key(t, n));
    }
    if n == k {
        if i >= 0 {
            assert(t[i].0 == k);
        } else {
            assert(t[s.len() as int].0 == k);
        }
        assert(has_key(t, n));
    }
}

/// The names of the files with extension `ext` among the first `k` entries.
pub open spec fn matching_names(es: Seq<Entry>, k: int, ext: Seq<char>) -> Set<Seq<char>>
    decreases k,
{
    if k <= 0 || k > es.len() {
        Set::empty()
    } else {
        let prev = matching_names(es, k - 1, ext);
        match es[k - 1] {
            Entry::File { name, .. } => if has_extension(name@, ext) {
                prev.insert(name@)
            } else {
                prev
            },
            Entry::Dir { .. } => prev,
        }
    }
}

/// The sizes on disk of the files with extension `ext` among the first `k`
/// entries, summed.
pub open spec fn matching_size(es: Seq<Entry>, k: int, ext: Seq<char>) -> int
    decreases k,
{
    if k <= 0 || k > es.len() {
        0
    } else {
        let prev = matching_size(es, k - 1, ext);
        match es[k - 1] {
            Entry::File { name, size, .. } => if has_extension(name@, ext) {
                prev + size
            } else {
                prev
            },
            Entry::Dir { .. } => prev,
        }
    }
}

/// Every entry of `es` is a readable file, and each one with the extension
/// of `lim` is within the per-file ceiling.
pub open spec fn plain_files_within(es: Seq<Entry>, lim: LimitsV) -> bool {
    forall|i: int|
        0 <= i < es.len() ==> match #[trigger] es[i] {
            Entry::File { name, size, content } => content is Some && (has_extension(name@, lim.extension)
                ==> size <= lim.max_file_size),
            Entry::Dir { .. } => false,
        }
}

proof fn lemma_walk_plain_files(es: Seq<Entry>, k: int, recurse: bool, lim: LimitsV)
    requires
        0 <= k <= es.len(),
        plain_files_within(es, lim),
        matching_size(es, k, lim.extension) <= lim.max_total_size,
    ensures
        walk(es, k, recurse, lim) matches Progress::Running(f) && f.total == matching_size(
            es,
            k,
            lim.extension,
        ) && forall|n: Seq<char>| has_key(f.files, n) <==> #[trigger] matching_names(es, k, lim.extension).contains(n),
    decreases k,
{
    if k > 0 {
        assert(matching_size(es, k - 1, lim.extension) <= matching_size(es, k, lim.extension));
        lemma_walk_plain_files(es, k - 1, recurse, lim);
        let f = walk(es, k - 1, recurse, lim)->Running_0;
        let e = es[k - 1];
        assert(plain_files_within(es, lim) ==> match e {
            Entry::File { name, size, content } => content is Some && (has_extension(name@, lim.extension)
                ==> size <= lim.max_file_size),
            Entry::Dir { .. } => false,
        });
        if let Entry::File { name, size, content } = e {
            if has_extension(name@, lim.extension) {
                let c = content_view(content)->Some_0;
                let g = FrameV { files: insert_pair(f.files, name@, c), total: f.total + size };
                assert(file_step(f, name@, size as int, content_view(content), lim) == Progress::Running(g));
                assert(walk(es, k, recurse, lim) == Progress::Running(g));
                assert forall|n: Seq<char>|
                    has_key(g.files, n) <==> #[trigger] matching_names(es, k, lim.extension).contains(n) by {
                    lemma_has_key_insert(f.files, name@, c, n);
                    assert(has_key(f.files, n) <==> matching_names(es, k - 1, lim.extension).contains(n));
                    assert(matching_names(es, k, lim.extension) == matching_names(es, k - 1, lim.extension).insert(name@));
                }
            } else {
                assert(walk(es, k, recurse, lim) == Progress::Running(f));
                assert(matching_names(es, k, lim.extension) == matching_names(es, k - 1, lim.extension));
            }
        }
    } else {
        assert forall|n: Seq<char>| has_key(Seq::<Pair>::empty(), n) <==> #[trigger] matching_names(
            es,
            k,
            lim.extension,
        ).contains(n) by {}
    }
}

/// Filtering, exactly: in a directory of readable files, each within the
/// per-file ceiling and all together within the aggregate ceiling, the
/// collection holds exactly the names of the files with the extension.
pub proof fn lemma_collect_exactly_matching(es: Seq<Entry>, recurse: bool, lim: LimitsV)
    requires
        plain_files_within(es, lim),
        matching_size(es, es.len() as int, lim.extension) <= lim.max_total_size,
    ensures
        collect_spec(es, recurse, lim) matches Ok(files) && forall|n: Seq<char>|
            has_key(files, n) <==> #[trigger] matching_names(es, es.len() as int, lim.extension).contains(n),
{
    lemma_walk_plain_files(es, es.len() as int, recurse, lim);
}

/// Recursion toggle: in a directory that holds a readable file with the
/// extension and a subdirectory that holds just one more such file, each
/// within the per-file ceiling and the two within the aggregate ceiling, a
/// collection that descends holds both names, and one that does not fails as
/// a whole, whichever of the two entries comes first.
pub proof fn lemma_recursion_toggle(es: Seq<Entry>, t: int, lim: LimitsV)
    requires
        es.len() == 2,
        0 <= t <= 1,
        es[t] is File,
        has_extension(es[t]->File_name@, lim.extension),
        es[t]->File_content is Some,
        es[t]->File_size <= lim.max_file_size,
        es[1 - t] is Dir,
        es[1 - t]->Dir_entries@.len() == 1,
        es[1 - t]->Dir_entries@[0] is File,
        has_extension(es[1 - t]->Dir_entries@[0]->File_name@, lim.extension),
        es[1 - t]->Dir_entries@[0]->File_content is Some,
        byte_len(es[1 - t]->Dir_entries@[0]->File_content->Some_0@) <= es[1
            - t]->Dir_entries@[0]->File_size <= lim.max_file_size,
        es[t]->File_size + es[1 - t]->Dir_entries@[0]->File_size <= lim.max_total_size,
    ensures
        collect_spec(es, true, lim) matches Ok(files) && has_key(files, es[t]->File_name@) && has_key(
            files,
            es[1 - t]->Dir_entries@[0]->File_name@,
        ),
        collect_spec(es, false, lim) == Err::<Seq<Pair>, _>(ErrorV::NotRecursive),
{
    let top = es[t];
    let inner_es = es[1 - t]->Dir_entries@;
    let inner = inner_es[0];
    let na = top->File_name@;
    let ca = top->File_content->Some_0@;
    let sa = top->File_size as int;
    let nb = inner->File_name@;
    let cb = inner->File_content->Some_0@;
    let sb = inner->File_size as int;
    let empty = Seq::<Pair>::empty();
    assert(byte_len(cb) >= 0);
    lemma_key_index(empty, na);
    lemma_key_index(empty, nb);
    let sub = insert_pair(empty, nb, cb);
    assert(walk(inner_es, 0, true, lim) == Progress::Running(empty_frame()));
    assert(walk(inner_es, 1, true, lim) == Progress::Running(FrameV { files: sub, total: sb }));
    assert(collect_spec(inner_es, true, lim) == Ok::<Seq<Pair>, ErrorV>(sub));
    assert(sub.len() == 1);
    assert(sub[0] == (nb, cb));
    assert(walk(es, 0, true, lim) == Progress::Running(empty_frame()));
    assert(walk(es, 0, false, lim) == Progress::Running(empty_frame()));
    if t == 0 {
        let fa = insert_pair(empty, na, ca);
        let f1 = FrameV { files: fa, total: sa };
        assert(walk(es, 1, true, lim) == Progress::Running(f1));
        assert(merge_prefix(f1, sub, 0, lim.max_total_size) == Progress::Running(f1));
        let f2 = FrameV { files: insert_pair(fa, nb, cb), total: sa + byte_len(cb) };
        assert(merge_prefix(f1, sub, 1, lim.max_total_size) == Progress::Running(f2));
        assert(walk(es, 2, true, lim) == Progress::Running(f2));
        lemma_has_key_insert(fa, nb, cb, na);
        lemma_has_key_insert(fa, nb, cb, nb);
        lemma_has_key_insert(empty, na, ca, na);
        assert(walk(es, 1, false, lim) == Progress::Running(f1));
        assert(walk(es, 2, false, lim) == Progress::Failed(ErrorV::NotRecursive));
    } else {
        let f0 = empty_frame();
        assert(merge_prefix(f0, sub, 0, lim.max_total_size) == Progress::Running(f0));
        let f1 = FrameV { files: insert_pair(empty, nb, cb), total: byte_len(cb) };
        assert(merge_prefix(f0, sub, 1, lim.max_total_size) == Progress::Running(f1));
        assert(walk(es, 1, true, lim) == Progress::Running(f1));
        let f2 = FrameV { files: insert_pair(f1.files, na, ca), total: byte_len(cb) + sa };
        assert(walk(es, 2, true, lim) == Progress::Running(f2));
        lemma_has_key_insert(f1.files, na, ca, na);
        lemma_has_key_insert(f1.files, na, ca, nb);
        lemma_has_key_insert(empty, nb, cb, nb);
        assert(walk(es, 1, false, lim) == Progress::Failed(ErrorV::NotRecursive));
        assert(walk(es, 2, false, lim) == Progress::Failed(ErrorV::NotRecursive));
    }
}

/// Idempotence: two collections of the same directory, under the same policy
/// and limits, give the same files in the same order, or the same error.
pub proof fn lemma_collect_repeatable(
    dir: Seq<Entry>,
    recurse: bool,
    lim: LimitsV,
    first: Result<FileMap, CollectError>,
    second: Result<FileMap, CollectError>,
)
    requires
        outcome_view(first) == collect_spec(dir, recurse, lim),
        outcome_view(second) == collect_spec(dir, recurse, lim),
    ensures
        outcome_view(first) == outcome_view(second),
        first matches Ok(a) ==> second matches Ok(b) && a@ == b@,
{
}

} // verus!

use vstd::prelude::*;
use crate::classify::{extension_spec, get_extension_str, names};
use crate::tree::PathInfo;

verus! {

/// How many files of one extension were seen.
pub struct FileType {
    pub extension: String,
    pub count: usize,
}

impl FileType {
    pub open spec fn view(&self) -> (Seq<char>, nat) {
        (self.extension@, self.count as nat)
    }
}

pub open spec fn types_view(v: Seq<FileType>) -> Seq<(Seq<char>, nat)> {
    v.map_values(|t: FileType| t@)
}

/// The extensions of the files of a listing that have one, in listing order.
/// Directories and files without an extension are left out.
pub open spec fn file_exts(infos: Seq<PathInfo>) -> Seq<Seq<char>>
    decreases infos.len(),
{
    if infos.len() == 0 {
        Seq::empty()
    } else {
        let p = infos.last();
        let ext = extension_spec(p.path@);
        file_exts(infos.drop_last()) + (if !p.is_dir && ext.len() > 0 {
            seq![ext]
        } else {
            Seq::empty()
        })
    }
}

/// The first position at or after `i` whose key is `k`, or -1.
pub open spec fn find_key(c: Seq<(Seq<char>, nat)>, k: Seq<char>, i: int) -> int
    decreases c.len() - i,
{
    if i < 0 || i >= c.len() {
        -1
    } else if c[i].0 == k {
        i
    } else {
        find_key(c, k, i + 1)
    }
}

/// Counts one more occurrence of `k`: its entry grows by one, or a new entry
/// is added at the end.
pub open spec fn tally(c: Seq<(Seq<char>, nat)>, k: Seq<char>) -> Seq<(Seq<char>, nat)> {
    let i = find_key(c, k, 0);
    if i >= 0 {
        c.update(i, (k, c[i].1 + 1))
    } else {
        c.push((k, 1))
    }
}

/// Each distinct extension of `exts` in order of first occurrence, with the
/// number of times it occurs.
pub open spec fn counts_spec(exts: Seq<Seq<char>>) -> Seq<(Seq<char>, nat)>
    decreases exts.len(),
{
    if exts.len() == 0 {
        Seq::empty()
    } else {
        tally(counts_spec(exts.drop_last()), exts.last())
    }
}

/// The sum of all counts.
pub open spec fn total(c: Seq<(Seq<char>, nat)>) -> nat
    decreases c.len(),
{
    if c.len() == 0 {
        0
    } else {
        total(c.drop_last()) + c.last().1
    }
}

/// The sum of the counts whose extension is in `set`.
pub open spec fn filtered_sum(c: Seq<(Seq<char>, nat)>, set: Seq<Seq<char>>) -> nat
    decreases c.len(),
{
    if c.len() == 0 {
        0
    } else {
        filtered_sum(c.drop_last(), set) + (if set.contains(c.last().0) {
            c.last().1
        } else {
            0
        })
    }
}

proof fn lemma_find_key_range(c: Seq<(Seq<char>, nat)>, k: Seq<char>, i: int)
    ensures
        find_key(c, k, i) == -1 || (i <= find_key(c, k, i) < c.len() && c[find_key(c, k, i)].0 == k),
    decreases c.len() - i,
{
    if 0 <= i < c.len() && c[i].0 != k {
        lemma_find_key_range(c, k, i + 1);
    }
}

proof fn lemma_total_update(c: Seq<(Seq<char>, nat)>, i: int, k: Seq<char>, n: nat)
    requires
        0 <= i < c.len(),
    ensures
        total(c.update(i, (k, n))) + c[i].1 == total(c) + n,
    decreases c.len(),
{
    let u = c.update(i, (k, n));
    if i < c.len() - 1 {
        lemma_total_update(c.drop_last(), i, k, n);
        assert(u.drop_last() =~= c.drop_last().update(i, (k, n)));
    } else {
        assert(u.drop_last() =~= c.drop_last());
    }
}

proof fn lemma_total_tally(c: Seq<(Seq<char>, nat)>, k: Seq<char>)
    ensures
        total(tally(c, k)) == total(c) + 1,
{
    lemma_find_key_range(c, k, 0);
    let i = find_key(c, k, 0);
    if i >= 0 {
        lemma_total_update(c, i, k, c[i].1 + 1);
    } else {
        assert(c.push((k, 1)).drop_last() =~= c);
    }
}

/// Every occurrence is counted exactly once: the counts add up to the number
/// of extensions tallied.
pub proof fn lemma_counts_total(exts: Seq<Seq<char>>)
    ensures
        total(counts_spec(exts)) == exts.len(),
    decreases exts.len(),
{
    if exts.len() > 0 {
        lemma_counts_total(exts.drop_last());
        lemma_total_tally(counts_spec(exts.drop_last()), exts.last());
    }
}

proof fn lemma_filtered_le_total(c: Seq<(Seq<char>, nat)>, set: Seq<Seq<char>>)
    ensures
        filtered_sum(c, set) <= total(c),
    decreases c.len(),
{
    if c.len() > 0 {
        lemma_filtered_le_total(c.drop_last(), set);
    }
}

proof fn lemma_filtered_prefix(c: Seq<(Seq<char>, nat)>, set: Seq<Seq<char>>, i: int)
    requires
        0 <= i <= c.len(),
    ensures
        filtered_sum(c.take(i), set) <= filtered_sum(c, set),
    decreases c.len(),
{
    if i < c.len() {
        lemma_filtered_prefix(c.drop_last(), set, i);
        assert(c.drop_last().take(i) =~= c.take(i));
    } else {
        assert(c.take(i) =~= c);
    }
}

/// How many times `k` occurs in `s`.
pub open spec fn occurrences(s: Seq<Seq<char>>, k: Seq<char>) -> nat
    decreases s.len(),
{
    if s.len() == 0 {
        0
    } else {
        occurrences(s.drop_last(), k) + (if s.last() == k {
            1nat
        } else {
            0nat
        })
    }
}

proof fn lemma_find_key_absent(c: Seq<(Seq<char>, nat)>, k: Seq<char>, i: int)
    requires
        0 <= i,
        find_key(c, k, i) == -1,
    ensures
        forall|j: int| i <= j < c.len() ==> c[j].0 != k,
    decreases c.len() - i,
{
    if i < c.len() {
        lemma_find_key_absent(c, k, i + 1);
    }
}

proof fn lemma_occurrences_absent(s: Seq<Seq<char>>, k: Seq<char>)
    requires
        !s.contains(k),
    ensures
        occurrences(s, k) == 0,
    decreases s.len(),
{
    if s.len() > 0 {
        assert(!s.drop_last().contains(k)) by {
            if s.drop_last().contains(k) {
                let j = choose|j: int| 0 <= j < s.drop_last().len() && s.drop_last()[j] == k;
                assert(s[j] == k);
            }
        }
        lemma_occurrences_absent(s.drop_last(), k);
    }
}

/// The counts are a mapping from extension to number of files: each
/// extension that occurs has exactly one entry, no other entry exists, and
/// each entry holds the number of occurrences of its extension.
pub proof fn lemma_counts_are_occurrences(exts: Seq<Seq<char>>)
    ensures
        forall|i: int, j: int|
            0 <= i < j < counts_spec(exts).len() ==> #[trigger] counts_spec(exts)[i].0 != #[trigger] counts_spec(exts)[j].0,
        forall|i: int|
            0 <= i < counts_spec(exts).len() ==> (#[trigger] counts_spec(exts)[i]).1 == occurrences(exts, counts_spec(exts)[i].0),
        forall|k: Seq<char>|
            exts.contains(k) <==> exists|i: int| 0 <= i < counts_spec(exts).len() && #[trigger] counts_spec(exts)[i].0 == k,
    decreases exts.len(),
{
    let c2 = counts_spec(exts);
    if exts.len() == 0 {
        assert forall|k: Seq<char>| !exts.contains(k) by {}
    } else {
        let prev = exts.drop_last();
        let e = exts.last();
        let c = counts_spec(prev);
        lemma_counts_are_occurrences(prev);
        lemma_find_key_range(c, e, 0);
        let f = find_key(c, e, 0);
        assert(c2 == tally(c, e));
        assert forall|k: Seq<char>| #[trigger] exts.contains(k) <==> (prev.contains(k) || k == e) by {
            if exts.contains(k) {
                let j = choose|j: int| 0 <= j < exts.len() && exts[j] == k;
                if j < prev.len() {
                    assert(prev[j] == k);
                }
            }
            if prev.contains(k) {
                let j = choose|j: int| 0 <= j < prev.len() && prev[j] == k;
                assert(exts[j] == k);
            }
            if k == e {
                assert(exts[exts.len() - 1] == k);
            }
        }
        if f >= 0 {
            assert forall|i: int| 0 <= i < c2.len() implies (#[trigger] c2[i]).1 == occurrences(exts, c2[i].0) by {
                if i != f {
                    assert(c2[i] == c[i]);
                }
            }
            assert forall|k: Seq<char>|
                exts.contains(k) <==> exists|i: int| 0 <= i < c2.len() && #[trigger] c2[i].0 == k by {
                if prev.contains(k) {
                    let i = choose|i: int| 0 <= i < c.len() && #[trigger] c[i].0 == k;
                    assert(c2[i].0 == k);
                }
                if k == e {
                    assert(c2[f].0 == k);
                }
                if exists|i: int| 0 <= i < c2.len() && #[trigger] c2[i].0 == k {
                    let i = choose|i: int| 0 <= i < c2.len() && #[trigger] c2[i].0 == k;
                    if i != f {
                        assert(c[i].0 == k);
                    }
                }
            }
        } else {
            lemma_find_key_absent(c, e, 0);
            assert(!prev.contains(e));
            lemma_occurrences_absent(prev, e);
            assert forall|i: int| 0 <= i < c2.len() implies (#[trigger] c2[i]).1 == occurrences(exts, c2[i].0) by {
                if i < c.len() {
                    assert(c2[i] == c[i]);
                }
            }
            assert forall|k: Seq<char>|
                exts.contains(k) <==> exists|i: int| 0 <= i < c2.len() && #[trigger] c2[i].0 == k by {
                if prev.contains(k) {
                    let i = choose|i: int| 0 <= i < c.len() && #[trigger] c[i].0 == k;
                    assert(c2[i].0 == k);
                }
                if k == e {
                    assert(c2[c.len() as int].0 == k);
                }
                if exists|i: int| 0 <= i < c2.len() && #[trigger] c2[i].0 == k {
                    let i = choose|i: int| 0 <= i < c2.len() && #[trigger] c2[i].0 == k;
                    if i < c.len() {
                        assert(c[i].0 == k);
                    }
                }
            }
        }
    }
}

/// The sum of the counts of `file_types` whose extension is in `set`.
pub fn filter_sum(file_types: &Vec<FileType>, set: &Vec<String>) -> (r: usize)
    requires
        filtered_sum(types_view(file_types@), names(set@)) <= usize::MAX,
    ensures
        r == filtered_sum(types_view(file_types@), names(set@)),
{
    let ghost c = types_view(file_types@);
    let mut sum: usize = 0;
    let mut i: usize = 0;
    while i < file_types.len()
        invariant
            i <= file_types.len(),
            c == types_view(file_types@),
            filtered_sum(c, names(set@)) <= usize::MAX,
            sum == filtered_sum(c.take(i as int), names(set@)),
        decreases file_types.len() - i,
    {
        assert(c.take(i + 1).drop_last() =~= c.take(i as int));
        proof {
            lemma_filtered_prefix(c, names(set@), i + 1);
        }
        if crate::classify::contains_name(set, &file_types[i].extension) {
            sum = sum + file_types[i].count;
        }
        i += 1;
    }
    assert(c.take(file_types.len() as int) =~= c);
    sum
}

/// Adds one occurrence of `ext` to `file_types`.
fn add_occurrence(file_types: &mut Vec<FileType>, ext: String)
    requires
        total(types_view(old(file_types)@)) < usize::MAX,
    ensures
        types_view(final(file_types)@) == tally(types_view(old(file_types)@), ext@),
{
    let ghost c = types_view(file_types@);
    let mut i: usize = 0;
    while i < file_types.len()
        invariant
            i <= file_types.len(),
            c == types_view(file_types@),
            c == types_view(old(file_types)@),
            find_key(c, ext@, 0) == find_key(c, ext@, i as int),
            total(c) < usize::MAX,
        decreases file_types.len() - i,
    {
        if file_types[i].extension == ext {
            proof {
                lemma_total_update(c, i as int, ext@, 0);
            }
            assert(find_key(c, ext@, i as int) == i);
            let ghost k = ext@;
            let n = file_types[i].count + 1;
            file_types.set(i, FileType { extension: ext, count: n });
            assert(types_view(file_types@) =~= c.update(i as int, (k, c[i as int].1 + 1)));
            return;
        }
        i += 1;
    }
    file_types.push(FileType { extension: ext, count: 1 });
    assert(types_view(file_types@) =~= tally(c, ext@));
}

/// What Analyze finds in a listing.
pub struct Analysis {
    /// The number of files that have an extension.
    pub file_count: usize,
    /// Each extension with its number of files, in order of first occurrence.
    pub file_types: Vec<FileType>,
    /// How many of those files have an extension in the list that applies.
    pub matched: usize,
    /// Whether the whitelist applies (it is not empty); else the blacklist does.
    pub whitelisted: bool,
}

/// The list that the filter policy consults.
pub open spec fn active_list(blacklist: Seq<Seq<char>>, whitelist: Seq<Seq<char>>) -> Seq<Seq<char>> {
    if whitelist.len() > 0 {
        whitelist
    } else {
        blacklist
    }
}

/// Counts the files of a flattened listing by extension, and how many of them
/// fall in the list that applies.
pub fn analyze(infos: &Vec<PathInfo>, blacklist: &Vec<String>, whitelist: &Vec<String>) -> (r: Analysis)
    ensures
        r.file_count == file_exts(infos@).len(),
        types_view(r.file_types@) == counts_spec(file_exts(infos@)),
        r.matched == filtered_sum(counts_spec(file_exts(infos@)), active_list(names(blacklist@), names(whitelist@))),
        r.whitelisted == (whitelist.len() > 0),
{
    let mut file_types: Vec<FileType> = Vec::new();
    let mut file_count: usize = 0;
    let mut i: usize = 0;
    while i < infos.len()
        invariant
            i <= infos.len(),
            file_count == file_exts(infos@.take(i as int)).len(),
            file_count <= i,
            types_view(file_types@) == counts_spec(file_exts(infos@.take(i as int))),
        decreases infos.len() - i,
    {
        assert(infos@.take(i + 1).drop_last() =~= infos@.take(i as int));
        let ghost before = file_exts(infos@.take(i as int));
        proof {
            lemma_counts_total(before);
        }
        if !infos[i].is_dir {
            let ext = get_extension_str(infos[i].path.as_str());
            if !ext.as_str().is_empty() {
                add_occurrence(&mut file_types, ext);
                file_count += 1;
                assert(file_exts(infos@.take(i + 1)).drop_last() =~= before);
            } else {
                assert(file_exts(infos@.take(i + 1)) =~= before);
            }
        } else {
            assert(file_exts(infos@.take(i + 1)) =~= before);
        }
        i += 1;
    }
    assert(infos@.take(infos.len() as int) =~= infos@);
    proof {
        lemma_counts_total(file_exts(infos@));
        lemma_filtered_le_total(counts_spec(file_exts(infos@)), names(whitelist@));
        lemma_filtered_le_total(counts_spec(file_exts(infos@)), names(blacklist@));
    }
    let matched = if whitelist.len() > 0 {
        filter_sum(&file_types, whitelist)
    } else {
        filter_sum(&file_types, blacklist)
    };
    Analysis { file_count, file_types, matched, whitelisted: whitelist.len() > 0 }
}

} // verus!

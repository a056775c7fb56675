use vstd::prelude::*;

verus! {

/// One entry of a directory listing together with what was read below it.
/// `children` holds the listing of the entry when it is a directory that was
/// descended into, and is empty otherwise.
pub struct Node {
    pub path: String,
    pub is_dir: bool,
    pub children: Vec<Node>,
}

/// One entry of a flattened listing.
pub struct PathInfo {
    pub path: String,
    pub is_dir: bool,
}

impl PathInfo {
    pub open spec fn view(&self) -> (Seq<char>, bool) {
        (self.path@, self.is_dir)
    }
}

pub open spec fn infos_view(s: Seq<PathInfo>) -> Seq<(Seq<char>, bool)> {
    s.map_values(|p: PathInfo| p@)
}

/// Depth-first listing of `entries`: each entry, followed (when it is a
/// directory and `level > 0`) by the listing of its children at `level - 1`.
pub open spec fn flat(entries: Seq<Node>, level: nat) -> Seq<(Seq<char>, bool)>
    decreases level, entries.len(),
{
    if entries.len() == 0 {
        Seq::empty()
    } else {
        let e = entries.last();
        flat(entries.drop_last(), level) + seq![(e.path@, e.is_dir)] + (if e.is_dir && level > 0 {
            flat(e.children@, (level - 1) as nat)
        } else {
            Seq::empty()
        })
    }
}

/// `f` places each element of `a` at a strictly increasing position of `b`.
pub open spec fn embeds<A>(f: Seq<int>, a: Seq<A>, b: Seq<A>) -> bool {
    &&& f.len() == a.len()
    &&& forall|i: int| 0 <= i < f.len() ==> 0 <= #[trigger] f[i] < b.len() && b[f[i]] == a[i]
    &&& forall|i: int, j: int| 0 <= i < j < f.len() ==> #[trigger] f[i] < #[trigger] f[j]
}

/// `a` is obtained from `b` by removing elements, keeping the order of the rest.
pub open spec fn is_subsequence<A>(a: Seq<A>, b: Seq<A>) -> bool {
    exists|f: Seq<int>| embeds(f, a, b)
}

proof fn lemma_subsequence_refl<A>(a: Seq<A>)
    ensures
        is_subsequence(a, a),
{
    let f = Seq::new(a.len(), |i: int| i);
    assert(embeds(f, a, a));
}

proof fn lemma_subsequence_empty<A>(b: Seq<A>)
    ensures
        is_subsequence(Seq::<A>::empty(), b),
{
    let f = Seq::<int>::empty();
    assert(embeds(f, Seq::<A>::empty(), b));
}

proof fn lemma_subsequence_concat<A>(a1: Seq<A>, b1: Seq<A>, a2: Seq<A>, b2: Seq<A>)
    requires
        is_subsequence(a1, b1),
        is_subsequence(a2, b2),
    ensures
        is_subsequence(a1 + a2, b1 + b2),
{
    let f1 = choose|f: Seq<int>| embeds(f, a1, b1);
    let f2 = choose|f: Seq<int>| embeds(f, a2, b2);
    let n = b1.len() as int;
    let f = f1 + f2.map_values(|j: int| j + n);
    let a = a1 + a2;
    let b = b1 + b2;
    assert forall|i: int| 0 <= i < f.len() implies 0 <= #[trigger] f[i] < b.len() && b[f[i]] == a[i] by {
        if i >= f1.len() {
            assert(f[i] == f2[i - f1.len()] + n);
        }
    }
    assert forall|i: int, j: int| 0 <= i < j < f.len() implies #[trigger] f[i] < #[trigger] f[j] by {
        if i < f1.len() && j >= f1.len() {
            assert(f[j] == f2[j - f1.len()] + n);
        } else if i >= f1.len() {
            assert(f[j] == f2[j - f1.len()] + n);
            assert(f[i] == f2[i - f1.len()] + n);
        }
    }
    assert(embeds(f, a, b));
}

/// Descending one level deeper keeps everything listed before, in the same
/// order: the listing at depth `level - 1` is a subsequence of the listing at
/// depth `level`.
pub proof fn lemma_deeper_listing_extends(entries: Seq<Node>, level: nat)
    requires
        level > 0,
    ensures
        is_subsequence(flat(entries, (level - 1) as nat), flat(entries, level)),
    decreases level, entries.len(),
{
    let lo = (level - 1) as nat;
    if entries.len() == 0 {
        lemma_subsequence_refl(flat(entries, level));
    } else {
        let e = entries.last();
        let head = seq![(e.path@, e.is_dir)];
        lemma_deeper_listing_extends(entries.drop_last(), level);
        lemma_subsequence_refl(head);
        lemma_subsequence_concat(flat(entries.drop_last(), lo), flat(entries.drop_last(), level), head, head);
        let deep = if e.is_dir { flat(e.children@, lo) } else { Seq::empty() };
        let shallow = if e.is_dir && lo > 0 { flat(e.children@, (lo - 1) as nat) } else { Seq::empty() };
        if e.is_dir && lo > 0 {
            lemma_deeper_listing_extends(e.children@, lo);
        } else {
            lemma_subsequence_empty(deep);
        }
        lemma_subsequence_concat(
            flat(entries.drop_last(), lo) + head,
            flat(entries.drop_last(), level) + head,
            shallow,
            deep,
        );
    }
}

/// How many entries lie exactly `depth` levels below `entries`, reached
/// through directories (depth 0: the entries themselves).
pub open spec fn count_at_depth(entries: Seq<Node>, depth: nat) -> nat
    decreases depth, entries.len(),
{
    if entries.len() == 0 {
        0
    } else {
        let e = entries.last();
        count_at_depth(entries.drop_last(), depth) + (if depth == 0 {
            1
        } else if e.is_dir {
            count_at_depth(e.children@, (depth - 1) as nat)
        } else {
            0
        })
    }
}

proof fn lemma_depth_zero_length(entries: Seq<Node>)
    ensures
        flat(entries, 0).len() == count_at_depth(entries, 0),
    decreases entries.len(),
{
    if entries.len() > 0 {
        lemma_depth_zero_length(entries.drop_last());
    }
}

/// Descending one level deeper adds exactly the entries at that depth: the
/// listing grows by their number, and by nothing else.
pub proof fn lemma_deeper_listing_adds_next_level(entries: Seq<Node>, level: nat)
    requires
        level > 0,
    ensures
        flat(entries, level).len() == flat(entries, (level - 1) as nat).len() + count_at_depth(entries, level),
    decreases level, entries.len(),
{
    if entries.len() > 0 {
        let e = entries.last();
        lemma_deeper_listing_adds_next_level(entries.drop_last(), level);
        if e.is_dir {
            if level > 1 {
                lemma_deeper_listing_adds_next_level(e.children@, (level - 1) as nat);
            } else {
                lemma_depth_zero_length(e.children@);
            }
        }
    }
}

/// At depth 0 the listing is the entries themselves.
pub proof fn lemma_depth_zero_lists_entries(entries: Seq<Node>)
    ensures
        flat(entries, 0) == entries.map_values(|e: Node| (e.path@, e.is_dir)),
    decreases entries.len(),
{
    if entries.len() > 0 {
        lemma_depth_zero_lists_entries(entries.drop_last());
        assert(entries.drop_last().map_values(|e: Node| (e.path@, e.is_dir)) + seq![(entries.last().path@, entries.last().is_dir)]
            =~= entries.map_values(|e: Node| (e.path@, e.is_dir)));
    } else {
        assert(entries.map_values(|e: Node| (e.path@, e.is_dir)) =~= Seq::empty());
    }
}

/// Whether a directory entry of the tree is descended into at `level`.
pub fn descends(is_dir: bool, level: usize) -> (r: bool)
    ensures
        r == (is_dir && level > 0),
{
    is_dir && level > 0
}

/// Lists `entries` depth first, descending into directories for `level`
/// further levels.
pub fn ls_recursive(entries: &Vec<Node>, level: usize) -> (r: Vec<PathInfo>)
    ensures
        infos_view(r@) == flat(entries@, level as nat),
    decreases level,
{
    let mut paths: Vec<PathInfo> = Vec::new();
    let mut i: usize = 0;
    while i < entries.len()
        invariant
            i <= entries.len(),
            infos_view(paths@) == flat(entries@.take(i as int), level as nat),
        decreases entries.len() - i,
    {
        let e = &entries[i];
        assert(entries@.take(i + 1).drop_last() =~= entries@.take(i as int));
        let old_paths = Ghost(paths@);
        paths.push(PathInfo { path: e.path.clone(), is_dir: e.is_dir });
        assert(infos_view(paths@) =~= infos_view(old_paths@) + seq![(e.path@, e.is_dir)]);
        if descends(e.is_dir, level) {
            let mut below = ls_recursive(&e.children, level - 1);
            let mid = Ghost(paths@);
            paths.append(&mut below);
            assert(infos_view(paths@) =~= infos_view(mid@) + flat(e.children@, (level - 1) as nat));
        }
        i += 1;
    }
    assert(entries@.take(entries.len() as int) =~= entries@);
    paths
}

} // verus!

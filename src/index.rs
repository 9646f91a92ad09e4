use vstd::prelude::*;

verus! {

/// A symbol occurrence as a mathematical value.
pub ghost struct OccView {
    pub name: Seq<char>,
    pub path: Seq<char>,
    pub line: nat,
    pub column: nat,
    pub width: nat,
    pub declaration: bool,
    pub scope: Seq<Seq<char>>,
}

/// One place where a constant is declared or referenced: the token starts at
/// `column` of `line` and spans `width` bytes. `scope` lists the names of the
/// enclosing modules and classes, outermost first.
pub struct Occurrence {
    pub name: String,
    pub path: String,
    pub line: usize,
    pub column: usize,
    pub width: usize,
    pub declaration: bool,
    pub scope: Vec<String>,
}

pub open spec fn names_view(v: Seq<String>) -> Seq<Seq<char>> {
    v.map_values(|s: String| s@)
}

impl View for Occurrence {
    type V = OccView;

    open spec fn view(&self) -> OccView {
        OccView {
            name: self.name@,
            path: self.path@,
            line: self.line as nat,
            column: self.column as nat,
            width: self.width as nat,
            declaration: self.declaration,
            scope: names_view(self.scope@),
        }
    }
}

pub open spec fn views(s: Seq<Occurrence>) -> Seq<OccView> {
    s.map_values(|o: Occurrence| o@)
}

pub fn copy_names(v: &Vec<String>) -> (r: Vec<String>)
    ensures
        names_view(r@) == names_view(v@),
{
    let mut r: Vec<String> = Vec::new();
    let mut i: usize = 0;
    while i < v.len()
        invariant
            i <= v@.len(),
            names_view(r@) == names_view(v@.take(i as int)),
        decreases v@.len() - i,
    {
        r.push(v[i].clone());
        assert(names_view(v@.take(i + 1)) =~= names_view(v@.take(i as int)).push(v@[i as int]@));
        i = i + 1;
    }
    assert(v@.take(v@.len() as int) =~= v@);
    r
}

impl Occurrence {
    pub fn copy(&self) -> (r: Occurrence)
        ensures
            r@ == self@,
    {
        Occurrence {
            name: self.name.clone(),
            path: self.path.clone(),
            line: self.line,
            column: self.column,
            width: self.width,
            declaration: self.declaration,
            scope: copy_names(&self.scope),
        }
    }
}

/// `s` without the occurrences attributed to file `p`.
pub open spec fn purged(s: Seq<OccView>, p: Seq<char>) -> Seq<OccView> {
    s.filter(|o: OccView| o.path != p)
}

/// The occurrences of `s` whose name is exactly `n`.
pub open spec fn named(s: Seq<OccView>, n: Seq<char>) -> Seq<OccView> {
    s.filter(|o: OccView| o.name == n)
}

/// The declaration occurrences of `s`.
pub open spec fn declared(s: Seq<OccView>) -> Seq<OccView> {
    s.filter(|o: OccView| o.declaration)
}

proof fn lemma_views_push(s: Seq<Occurrence>, x: Occurrence)
    ensures
        views(s.push(x)) == views(s).push(x@),
{
    assert(views(s.push(x)) =~= views(s).push(x@));
}

proof fn lemma_views_take_succ(s: Seq<Occurrence>, i: int)
    requires
        0 <= i < s.len(),
    ensures
        views(s.take(i + 1)) == views(s.take(i)).push(s[i]@),
        views(s.take(i + 1)).drop_last() == views(s.take(i)),
        views(s.take(i + 1)).last() == s[i]@,
{
    assert(s.take(i + 1) =~= s.take(i).push(s[i]));
    lemma_views_push(s.take(i), s[i]);
    assert(views(s.take(i + 1)).drop_last() =~= views(s.take(i)));
}

pub proof fn lemma_purged_step(s: Seq<OccView>, p: Seq<char>)
    requires
        s.len() > 0,
    ensures
        purged(s, p) == if s.last().path != p {
            purged(s.drop_last(), p).push(s.last())
        } else {
            purged(s.drop_last(), p)
        },
{
    reveal(Seq::filter);
}

pub proof fn lemma_named_step(s: Seq<OccView>, n: Seq<char>)
    requires
        s.len() > 0,
    ensures
        named(s, n) == if s.last().name == n {
            named(s.drop_last(), n).push(s.last())
        } else {
            named(s.drop_last(), n)
        },
{
    reveal(Seq::filter);
}

proof fn lemma_declared_step(s: Seq<OccView>)
    requires
        s.len() > 0,
    ensures
        declared(s) == if s.last().declaration {
            declared(s.drop_last()).push(s.last())
        } else {
            declared(s.drop_last())
        },
{
    reveal(Seq::filter);
}

pub proof fn lemma_purged_add(a: Seq<OccView>, b: Seq<OccView>, p: Seq<char>)
    ensures
        purged(a + b, p) == purged(a, p) + purged(b, p),
    decreases b.len(),
{
    if b.len() == 0 {
        assert(a + b =~= a);
        reveal(Seq::filter);
        assert(purged(a, p) + purged(b, p) =~= purged(a, p));
    } else {
        lemma_purged_add(a, b.drop_last(), p);
        assert((a + b).drop_last() =~= a + b.drop_last());
        lemma_purged_step(a + b, p);
        lemma_purged_step(b, p);
        assert((purged(a, p) + purged(b.drop_last(), p)).push(b.last()) =~= purged(a, p) + purged(
            b.drop_last(),
            p,
        ).push(b.last()));
    }
}

proof fn lemma_purged_idem(s: Seq<OccView>, p: Seq<char>)
    ensures
        purged(purged(s, p), p) == purged(s, p),
    decreases s.len(),
{
    if s.len() == 0 {
        reveal(Seq::filter);
    } else {
        lemma_purged_idem(s.drop_last(), p);
        lemma_purged_step(s, p);
        if s.last().path != p {
            let t = purged(s.drop_last(), p).push(s.last());
            assert(t.drop_last() =~= purged(s.drop_last(), p));
            lemma_purged_step(t, p);
        }
    }
}

proof fn lemma_purged_of_own(b: Seq<OccView>, p: Seq<char>)
    requires
        forall|i: int| 0 <= i < b.len() ==> (#[trigger] b[i]).path == p,
    ensures
        purged(b, p) == Seq::<OccView>::empty(),
    decreases b.len(),
{
    if b.len() == 0 {
        reveal(Seq::filter);
    } else {
        lemma_purged_of_own(b.drop_last(), p);
        lemma_purged_step(b, p);
    }
}

proof fn lemma_named_keeps_paths(s: Seq<OccView>, n: Seq<char>, p: Seq<char>)
    requires
        forall|i: int| 0 <= i < s.len() ==> (#[trigger] s[i]).path != p,
    ensures
        forall|i: int| 0 <= i < named(s, n).len() ==> (#[trigger] named(s, n)[i]).path != p,
    decreases s.len(),
{
    if s.len() == 0 {
        reveal(Seq::filter);
    } else {
        lemma_named_keeps_paths(s.drop_last(), n, p);
        lemma_named_step(s, n);
    }
}

proof fn lemma_purged_paths(s: Seq<OccView>, p: Seq<char>)
    ensures
        forall|i: int| 0 <= i < purged(s, p).len() ==> (#[trigger] purged(s, p)[i]).path != p,
    decreases s.len(),
{
    if s.len() == 0 {
        reveal(Seq::filter);
    } else {
        lemma_purged_paths(s.drop_last(), p);
        lemma_purged_step(s, p);
    }
}

/// Replacing a file's occurrences a second time with the same occurrences
/// leaves the index, and so every lookup, as the first replacement left it:
/// nothing is duplicated.
pub proof fn lemma_replace_file_idempotent(s: Seq<OccView>, p: Seq<char>, occs: Seq<OccView>)
    requires
        forall|i: int| 0 <= i < occs.len() ==> (#[trigger] occs[i]).path == p,
    ensures
        purged(purged(s, p) + occs, p) + occs == purged(s, p) + occs,
        forall|n: Seq<char>|
            #[trigger] named(purged(purged(s, p) + occs, p) + occs, n) == named(
                purged(s, p) + occs,
                n,
            ),
{
    lemma_purged_add(purged(s, p), occs, p);
    lemma_purged_idem(s, p);
    lemma_purged_of_own(occs, p);
    assert(purged(s, p) + Seq::<OccView>::empty() =~= purged(s, p));
}

/// After a file is removed, no lookup returns an occurrence of that file.
pub proof fn lemma_remove_file_purges(s: Seq<OccView>, p: Seq<char>, n: Seq<char>)
    ensures
        forall|i: int|
            0 <= i < named(purged(s, p), n).len() ==> (#[trigger] named(purged(s, p), n)[i]).path
                != p,
{
    lemma_purged_paths(s, p);
    lemma_named_keeps_paths(purged(s, p), n, p);
}

/// Names match exactly: adding occurrences none of which is named `n` leaves
/// the lookup of `n` as it was, whatever their names differ by (case included).
pub proof fn lemma_lookup_exact(s: Seq<OccView>, occs: Seq<OccView>, n: Seq<char>)
    requires
        forall|i: int| 0 <= i < occs.len() ==> (#[trigger] occs[i]).name != n,
    ensures
        named(s + occs, n) == named(s, n),
    decreases occs.len(),
{
    if occs.len() == 0 {
        assert(s + occs =~= s);
    } else {
        lemma_lookup_exact(s, occs.drop_last(), n);
        assert((s + occs).drop_last() =~= s + occs.drop_last());
        lemma_named_step(s + occs, n);
    }
}

/// Occurrence `o` lies in file `p` and spans column `c` of line `l`.
pub open spec fn covers(o: OccView, p: Seq<char>, l: nat, c: nat) -> bool {
    o.path == p && o.line == l && o.column <= c < o.column + o.width
}

/// The occurrences of `s` that span column `c` of line `l` in file `p`.
pub open spec fn covering(s: Seq<OccView>, p: Seq<char>, l: nat, c: nat) -> Seq<OccView> {
    s.filter(|o: OccView| covers(o, p, l, c))
}

proof fn lemma_covering_first(s: Seq<Occurrence>, i: int, p: Seq<char>, l: nat, c: nat)
    requires
        0 <= i < s.len(),
        covering(views(s.take(i)), p, l, c).len() == 0,
        covers(s[i]@, p, l, c),
    ensures
        covering(views(s), p, l, c).len() > 0,
        covering(views(s), p, l, c)[0] == s[i]@,
    decreases s.len(),
{
    reveal(Seq::filter);
    if i == s.len() - 1 {
        assert(s.take(i) =~= s.drop_last());
        assert(views(s).drop_last() =~= views(s.drop_last()));
    } else {
        assert(s.drop_last().take(i) =~= s.take(i));
        lemma_covering_first(s.drop_last(), i, p, l, c);
        assert(views(s).drop_last() =~= views(s.drop_last()));
    }
}

/// Purging a file whose path no occurrence of `n` carries leaves the lookup
/// of `n` as it was.
pub proof fn lemma_purge_keeps_lookup(x: Seq<OccView>, p: Seq<char>, n: Seq<char>)
    requires
        forall|j: int| 0 <= j < named(x, n).len() ==> (#[trigger] named(x, n)[j]).path != p,
    ensures
        named(purged(x, p), n) == named(x, n),
    decreases x.len(),
{
    if x.len() == 0 {
        reveal(Seq::filter);
    } else {
        let y = x.drop_last();
        let last = x.last();
        lemma_named_step(x, n);
        lemma_purged_step(x, p);
        if last.name == n {
            assert(named(x, n)[named(x, n).len() - 1] == last);
            assert forall|j: int| 0 <= j < named(y, n).len() implies (#[trigger] named(y, n)[j]).path != p by {
                assert(named(x, n)[j] == named(y, n)[j]);
            }
        }
        lemma_purge_keeps_lookup(y, p, n);
        if last.path != p {
            let z = purged(y, p).push(last);
            assert(z.drop_last() =~= purged(y, p));
            lemma_named_step(z, n);
        }
    }
}

/// Every symbol occurrence of the workspace, in insertion order.
pub struct WorkspaceIndex {
    occurrences: Vec<Occurrence>,
}

impl View for WorkspaceIndex {
    type V = Seq<OccView>;

    closed spec fn view(&self) -> Seq<OccView> {
        views(self.occurrences@)
    }
}

impl WorkspaceIndex {
    pub fn new() -> (r: WorkspaceIndex)
        ensures
            r@ == Seq::<OccView>::empty(),
    {
        WorkspaceIndex { occurrences: Vec::new() }
    }

    /// Removes every occurrence attributed to `path`, then appends `occurrences`.
    pub fn replace_file(&mut self, path: &String, occurrences: Vec<Occurrence>)
        ensures
            final(self)@ == purged(old(self)@, path@) + views(occurrences@),
    {
        let mut kept: Vec<Occurrence> = Vec::new();
        let mut i: usize = 0;
        while i < self.occurrences.len()
            invariant
                i <= self.occurrences@.len(),
                views(kept@) == purged(views(self.occurrences@.take(i as int)), path@),
            decreases self.occurrences@.len() - i,
        {
            proof {
                lemma_views_take_succ(self.occurrences@, i as int);
                lemma_purged_step(views(self.occurrences@.take(i + 1)), path@);
            }
            if self.occurrences[i].path != *path {
                let ghost before = kept@;
                kept.push(self.occurrences[i].copy());
                proof {
                    lemma_views_push(before, kept@.last());
                }
            }
            i = i + 1;
        }
        assert(self.occurrences@.take(self.occurrences@.len() as int) =~= self.occurrences@);
        let ghost k = kept@;
        let mut j: usize = 0;
        while j < occurrences.len()
            invariant
                j <= occurrences@.len(),
                k.len() <= kept@.len(),
                views(kept@) == views(k) + views(occurrences@.take(j as int)),
                views(k) == purged(old(self)@, path@),
            decreases occurrences@.len() - j,
        {
            let ghost before = kept@;
            kept.push(occurrences[j].copy());
            proof {
                lemma_views_push(before, kept@.last());
                lemma_views_take_succ(occurrences@, j as int);
            }
            j = j + 1;
        }
        assert(occurrences@.take(occurrences@.len() as int) =~= occurrences@);
        self.occurrences = kept;
    }

    /// Removes every occurrence attributed to `path`.
    pub fn remove_file(&mut self, path: &String)
        ensures
            final(self)@ == purged(old(self)@, path@),
    {
        self.replace_file(path, Vec::new());
        assert(views(Seq::<Occurrence>::empty()) =~= Seq::<OccView>::empty());
        assert(purged(old(self)@, path@) + Seq::<OccView>::empty() =~= purged(old(self)@, path@));
    }

    /// The first recorded occurrence that spans column `column` of line `line`
    /// in file `path`, if any.
    pub fn occurrence_at(&self, path: &String, line: usize, column: usize) -> (r: Option<
        Occurrence,
    >)
        ensures
            match r {
                Some(o) => covering(self@, path@, line as nat, column as nat).len() > 0 && o@
                    == covering(self@, path@, line as nat, column as nat)[0],
                None => covering(self@, path@, line as nat, column as nat).len() == 0,
            },
    {
        let ghost l = line as nat;
        let ghost c = column as nat;
        let mut i: usize = 0;
        while i < self.occurrences.len()
            invariant
                i <= self.occurrences@.len(),
                covering(views(self.occurrences@.take(i as int)), path@, l, c).len() == 0,
                l == line as nat,
                c == column as nat,
            decreases self.occurrences@.len() - i,
        {
            proof {
                lemma_views_take_succ(self.occurrences@, i as int);
                reveal(Seq::filter);
            }
            let o = &self.occurrences[i];
            if o.path == *path && o.line == line && o.column <= column && column - o.column < o.width {
                proof {
                    lemma_covering_first(self.occurrences@, i as int, path@, l, c);
                }
                return Some(o.copy());
            }
            i = i + 1;
        }
        assert(self.occurrences@.take(self.occurrences@.len() as int) =~= self.occurrences@);
        None
    }

    /// All occurrences, declarations and references, of exactly `name`.
    pub fn lookup(&self, name: &String) -> (r: Vec<Occurrence>)
        ensures
            views(r@) == named(self@, name@),
    {
        let mut r: Vec<Occurrence> = Vec::new();
        let mut i: usize = 0;
        while i < self.occurrences.len()
            invariant
                i <= self.occurrences@.len(),
                views(r@) == named(views(self.occurrences@.take(i as int)), name@),
            decreases self.occurrences@.len() - i,
        {
            proof {
                lemma_views_take_succ(self.occurrences@, i as int);
                lemma_named_step(views(self.occurrences@.take(i + 1)), name@);
            }
            if self.occurrences[i].name == *name {
                let ghost before = r@;
                r.push(self.occurrences[i].copy());
                proof {
                    lemma_views_push(before, r@.last());
                }
            }
            i = i + 1;
        }
        assert(self.occurrences@.take(self.occurrences@.len() as int) =~= self.occurrences@);
        r
    }

    /// The declaration occurrences of exactly `name`.
    pub fn declarations_for(&self, name: &String) -> (r: Vec<Occurrence>)
        ensures
            views(r@) == declared(named(self@, name@)),
    {
        let all = self.lookup(name);
        let mut r: Vec<Occurrence> = Vec::new();
        let mut i: usize = 0;
        while i < all.len()
            invariant
                i <= all@.len(),
                views(r@) == declared(views(all@.take(i as int))),
            decreases all@.len() - i,
        {
            proof {
                lemma_views_take_succ(all@, i as int);
                lemma_declared_step(views(all@.take(i + 1)));
            }
            if all[i].declaration {
                let ghost before = r@;
                r.push(all[i].copy());
                proof {
                    lemma_views_push(before, r@.last());
                }
            }
            i = i + 1;
        }
        assert(all@.take(all@.len() as int) =~= all@);
        r
    }
}

} // verus!

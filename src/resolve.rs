use vstd::prelude::*;
use vstd::string::StrSliceExecFns;
use crate::index::{declared, named, names_view, views, OccView, Occurrence, WorkspaceIndex};

verus! {

broadcast use vstd::seq_lib::group_to_multiset_ensures;

/// Lexicographic order on texts, by character code, from position `i` on.
pub open spec fn text_lt_from(a: Seq<char>, b: Seq<char>, i: int) -> bool
    decreases a.len() - i,
{
    if i < 0 || i >= a.len() {
        0 <= i < b.len()
    } else if i >= b.len() {
        false
    } else if a[i] != b[i] {
        (a[i] as int) < (b[i] as int)
    } else {
        text_lt_from(a, b, i + 1)
    }
}

pub open spec fn text_lt(a: Seq<char>, b: Seq<char>) -> bool {
    text_lt_from(a, b, 0)
}

/// `x` comes no later than `y`: by file path, then by line.
pub open spec fn place_le(x: OccView, y: OccView) -> bool {
    text_lt(x.path, y.path) || (x.path == y.path && x.line <= y.line)
}

pub open spec fn sorted_by_place(s: Seq<OccView>) -> bool {
    forall|i: int, j: int| 0 <= i < j < s.len() ==> place_le(#[trigger] s[i], #[trigger] s[j])
}

proof fn lemma_text_lt_trans(a: Seq<char>, b: Seq<char>, c: Seq<char>, i: int)
    requires
        0 <= i,
        text_lt_from(a, b, i),
        text_lt_from(b, c, i),
    ensures
        text_lt_from(a, c, i),
    decreases a.len() - i,
{
    if i < a.len() && i < b.len() && i < c.len() && a[i] == b[i] && b[i] == c[i] {
        lemma_text_lt_trans(a, b, c, i + 1);
    }
}

proof fn lemma_text_lt_total(a: Seq<char>, b: Seq<char>, i: int)
    requires
        0 <= i <= a.len(),
        i <= b.len(),
        a.take(i) == b.take(i),
    ensures
        text_lt_from(a, b, i) || text_lt_from(b, a, i) || a == b,
    decreases a.len() - i,
{
    if i < a.len() && i < b.len() && a[i] == b[i] {
        assert(a.take(i + 1) =~= a.take(i).push(a[i]));
        assert(b.take(i + 1) =~= b.take(i).push(b[i]));
        lemma_text_lt_total(a, b, i + 1);
    } else if i == a.len() && i == b.len() {
        assert(a =~= a.take(i));
        assert(b =~= b.take(i));
    }
}

proof fn lemma_place_trans(x: OccView, y: OccView, z: OccView)
    requires
        place_le(x, y),
        place_le(y, z),
    ensures
        place_le(x, z),
{
    if text_lt(x.path, y.path) && text_lt(y.path, z.path) {
        lemma_text_lt_trans(x.path, y.path, z.path, 0);
    }
}

proof fn lemma_place_total(x: OccView, y: OccView)
    ensures
        place_le(x, y) || place_le(y, x),
{
    assert(x.path.take(0) =~= y.path.take(0));
    lemma_text_lt_total(x.path, y.path, 0);
}

/// Whether path `a` sorts before path `b`.
fn text_less(a: &String, b: &String) -> (r: bool)
    ensures
        r == text_lt(a@, b@),
{
    let la = a.as_str().unicode_len();
    let lb = b.as_str().unicode_len();
    let mut i: usize = 0;
    while i < la && i < lb
        invariant
            la == a@.len(),
            lb == b@.len(),
            i <= la,
            i <= lb,
            text_lt(a@, b@) == text_lt_from(a@, b@, i as int),
        decreases la - i,
    {
        let ca = a.as_str().get_char(i);
        let cb = b.as_str().get_char(i);
        if ca != cb {
            return (ca as u32) < (cb as u32);
        }
        i = i + 1;
    }
    i < lb && i >= la
}

fn place_before_or_same(x: &Occurrence, y: &Occurrence) -> (r: bool)
    ensures
        r == place_le(x@, y@),
{
    text_less(&x.path, &y.path) || (x.path == y.path && x.line <= y.line)
}

proof fn lemma_views_insert(s: Seq<Occurrence>, k: int, x: Occurrence)
    requires
        0 <= k <= s.len(),
    ensures
        views(s.insert(k, x)) == views(s).insert(k, x@),
{
    assert(views(s.insert(k, x)) =~= views(s).insert(k, x@));
}

/// Orders occurrences by file path, then by line, keeping every one of them.
pub fn sort_by_place(v: Vec<Occurrence>) -> (r: Vec<Occurrence>)
    ensures
        views(r@).to_multiset() == views(v@).to_multiset(),
        sorted_by_place(views(r@)),
{
    let mut r: Vec<Occurrence> = Vec::new();
    let mut i: usize = 0;
    while i < v.len()
        invariant
            i <= v@.len(),
            views(r@).to_multiset() == views(v@.take(i as int)).to_multiset(),
            sorted_by_place(views(r@)),
        decreases v@.len() - i,
    {
        let x = v[i].copy();
        let mut k: usize = 0;
        while k < r.len() && place_before_or_same(&r[k], &x)
            invariant
                k <= r@.len(),
                x@ == v@[i as int]@,
                forall|j: int| 0 <= j < k ==> place_le(#[trigger] views(r@)[j], x@),
            decreases r@.len() - k,
        {
            k = k + 1;
        }
        let ghost before = r@;
        proof {
            if k < before.len() {
                lemma_place_total(x@, views(before)[k as int]);
                assert forall|j: int| k <= j < before.len() implies place_le(
                    x@,
                    #[trigger] views(before)[j],
                ) by {
                    if j > k {
                        lemma_place_trans(x@, views(before)[k as int], views(before)[j]);
                    }
                }
            }
        }
        r.insert(k, x);
        proof {
            lemma_views_insert(before, k as int, x);
            vstd::seq_lib::to_multiset_insert(views(before), k as int, x@);
            assert(v@.take(i + 1) =~= v@.take(i as int).push(v@[i as int]));
            assert(views(v@.take(i + 1)) =~= views(v@.take(i as int)).push(v@[i as int]@));
            let s = views(r@);
            assert forall|a: int, b: int| 0 <= a < b < s.len() implies place_le(
                #[trigger] s[a],
                #[trigger] s[b],
            ) by {
                if a < k && b > k {
                    lemma_place_trans(s[a], x@, s[b]);
                }
            }
        }
        i = i + 1;
    }
    assert(v@.take(v@.len() as int) =~= v@);
    r
}


/// The declarations of `n` whose enclosing-module path is exactly `q`.
pub open spec fn candidates(s: Seq<OccView>, n: Seq<char>, q: Seq<Seq<char>>) -> Seq<OccView> {
    declared(named(s, n)).filter(|o: OccView| o.scope == q)
}

/// The declarations that a reference to `n` inside the modules `q` resolves
/// to, trying the first `k` names of `q` first, then ever shorter prefixes,
/// down to the top level: the first non-empty set wins.
pub open spec fn resolution(s: Seq<OccView>, n: Seq<char>, q: Seq<Seq<char>>, k: nat) -> Seq<
    OccView,
>
    decreases k,
{
    if candidates(s, n, q.take(k as int)).len() > 0 {
        candidates(s, n, q.take(k as int))
    } else if k == 0 {
        Seq::empty()
    } else {
        resolution(s, n, q, (k - 1) as nat)
    }
}

proof fn lemma_scoped_step(s: Seq<OccView>, q: Seq<Seq<char>>)
    requires
        s.len() > 0,
    ensures
        s.filter(|o: OccView| o.scope == q) == if s.last().scope == q {
            s.drop_last().filter(|o: OccView| o.scope == q).push(s.last())
        } else {
            s.drop_last().filter(|o: OccView| o.scope == q)
        },
{
    reveal(Seq::filter);
}

/// Whether the names of `a` are exactly the first `k` names of `b`.
fn is_prefix_scope(a: &Vec<String>, b: &Vec<String>, k: usize) -> (r: bool)
    requires
        k <= b@.len(),
    ensures
        r == (names_view(a@) == names_view(b@).take(k as int)),
{
    if a.len() != k {
        assert(names_view(a@).len() != names_view(b@).take(k as int).len());
        return false;
    }
    let mut i: usize = 0;
    while i < k
        invariant
            a@.len() == k,
            k <= b@.len(),
            i <= k,
            forall|j: int| 0 <= j < i ==> a@[j]@ == b@[j]@,
        decreases k - i,
    {
        if a[i] != b[i] {
            assert(names_view(a@)[i as int] != names_view(b@).take(k as int)[i as int]);
            return false;
        }
        i = i + 1;
    }
    assert(names_view(a@) =~= names_view(b@).take(k as int));
    true
}

impl WorkspaceIndex {
    /// The declarations that a reference to `name` inside the modules `scope`
    /// (outermost first) resolves to: those of the longest prefix of `scope`
    /// that declares `name`, else those at the top level, ordered by file path
    /// then line. Empty when nothing matches.
    pub fn resolve(&self, name: &String, scope: &Vec<String>) -> (r: Vec<Occurrence>)
        ensures
            views(r@).to_multiset() == resolution(
                self@,
                name@,
                names_view(scope@),
                scope@.len() as nat,
            ).to_multiset(),
            sorted_by_place(views(r@)),
            r@.len() == resolution(self@, name@, names_view(scope@), scope@.len() as nat).len(),
    {
        let decls = self.declarations_for(name);
        let ghost q = names_view(scope@);
        let mut k: usize = scope.len();
        loop
            invariant
                k <= scope@.len(),
                q == names_view(scope@),
                views(decls@) == declared(named(self@, name@)),
                resolution(self@, name@, q, scope@.len() as nat) == resolution(
                    self@,
                    name@,
                    q,
                    k as nat,
                ),
            decreases k,
        {
            let mut found: Vec<Occurrence> = Vec::new();
            let mut i: usize = 0;
            while i < decls.len()
                invariant
                    i <= decls@.len(),
                    k <= scope@.len(),
                    views(found@) == views(decls@.take(i as int)).filter(
                        |o: OccView| o.scope == q.take(k as int),
                    ),
                    q == names_view(scope@),
                decreases decls@.len() - i,
            {
                assert(decls@.take(i + 1) =~= decls@.take(i as int).push(decls@[i as int]));
                assert(views(decls@.take(i + 1)) =~= views(decls@.take(i as int)).push(
                    decls@[i as int]@,
                ));
                assert(views(decls@.take(i + 1)).drop_last() =~= views(decls@.take(i as int)));
                proof {
                    lemma_scoped_step(views(decls@.take(i + 1)), q.take(k as int));
                }
                if is_prefix_scope(&decls[i].scope, scope, k) {
                    let ghost before = found@;
                    found.push(decls[i].copy());
                    assert(views(found@) =~= views(before).push(decls@[i as int]@));
                }
                i = i + 1;
            }
            assert(decls@.take(decls@.len() as int) =~= decls@);
            if found.len() > 0 {
                let r = sort_by_place(found);
                proof {
                    vstd::seq_lib::to_multiset_len(views(r@));
                    vstd::seq_lib::to_multiset_len(views(found@));
                }
                return r;
            }
            if k == 0 {
                let r: Vec<Occurrence> = Vec::new();
                assert(views(r@) =~= Seq::<OccView>::empty());
                return r;
            }
            k = k - 1;
        }
    }
}

proof fn lemma_filter_nonempty(s: Seq<OccView>, pred: spec_fn(OccView) -> bool, i: int)
    requires
        0 <= i < s.len(),
        pred(s[i]),
    ensures
        s.filter(pred).len() > 0,
    decreases s.len(),
{
    reveal(Seq::filter);
    if i < s.len() - 1 {
        lemma_filter_nonempty(s.drop_last(), pred, i);
    }
}

proof fn lemma_filter_none(s: Seq<OccView>, pred: spec_fn(OccView) -> bool)
    requires
        forall|i: int| 0 <= i < s.len() ==> !pred(#[trigger] s[i]),
    ensures
        s.filter(pred).len() == 0,
    decreases s.len(),
{
    reveal(Seq::filter);
    if s.len() > 0 {
        lemma_filter_none(s.drop_last(), pred);
    }
}

proof fn lemma_filter_keeps(
    s: Seq<OccView>,
    pred: spec_fn(OccView) -> bool,
    prop: spec_fn(OccView) -> bool,
)
    requires
        forall|i: int| 0 <= i < s.len() ==> prop(#[trigger] s[i]),
    ensures
        forall|j: int|
            0 <= j < s.filter(pred).len() ==> prop(#[trigger] s.filter(pred)[j]) && pred(
                s.filter(pred)[j],
            ),
    decreases s.len(),
{
    reveal(Seq::filter);
    if s.len() > 0 {
        lemma_filter_keeps(s.drop_last(), pred, prop);
        let f = s.drop_last().filter(pred);
        assert(prop(s[s.len() - 1]));
        assert forall|j: int| 0 <= j < s.filter(pred).len() implies prop(
            #[trigger] s.filter(pred)[j],
        ) && pred(s.filter(pred)[j]) by {
            if j < f.len() {
                assert(s.filter(pred)[j] == f[j]);
            }
        }
    }
}

proof fn lemma_filter_keeps_index(
    s: Seq<OccView>,
    pred: spec_fn(OccView) -> bool,
    i: int,
)
    requires
        0 <= i < s.len(),
        pred(s[i]),
    ensures
        exists|j: int| 0 <= j < s.filter(pred).len() && s.filter(pred)[j] == s[i],
    decreases s.len(),
{
    reveal(Seq::filter);
    if i < s.len() - 1 {
        lemma_filter_keeps_index(s.drop_last(), pred, i);
        let j = choose|j: int|
            0 <= j < s.drop_last().filter(pred).len() && s.drop_last().filter(pred)[j] == s[i];
        assert(s.filter(pred)[j] == s[i]);
    } else {
        assert(s.filter(pred)[s.filter(pred).len() - 1] == s[i]);
    }
}

/// The nearest enclosing scope wins: when the index holds a declaration of
/// `n` inside exactly the modules `q`, a reference to `n` from inside `q`
/// resolves to the declarations at that scope only, whatever `n` declares at
/// outer scopes or at the top level.
pub proof fn lemma_nearest_scope_wins(s: Seq<OccView>, n: Seq<char>, q: Seq<Seq<char>>, i: int)
    requires
        0 <= i < s.len(),
        s[i].declaration,
        s[i].name == n,
        s[i].scope == q,
    ensures
        resolution(s, n, q, q.len()) == candidates(s, n, q),
        resolution(s, n, q, q.len()).len() > 0,
        forall|j: int|
            0 <= j < resolution(s, n, q, q.len()).len() ==> (#[trigger] resolution(
                s,
                n,
                q,
                q.len(),
            )[j]).scope == q && resolution(s, n, q, q.len())[j].name == n,
{
    assert(q.take(q.len() as int) =~= q);
    let pn = |o: OccView| o.name == n;
    let pd = |o: OccView| o.declaration;
    let ps = |o: OccView| o.scope == q;
    let all = |o: OccView| true;
    let is_n = |o: OccView| o.name == n;
    lemma_filter_keeps_index(s, pn, i);
    let a = s.filter(pn);
    let ia = choose|j: int| 0 <= j < a.len() && a[j] == s[i];
    lemma_filter_keeps_index(a, pd, ia);
    let b = a.filter(pd);
    let ib = choose|j: int| 0 <= j < b.len() && b[j] == s[i];
    lemma_filter_nonempty(b, ps, ib);
    lemma_filter_keeps(s, pn, all);
    lemma_filter_keeps(a, pd, is_n);
    lemma_filter_keeps(b, ps, is_n);
}

/// A name that nothing declares resolves to nothing, from any scope.
pub proof fn lemma_unknown_symbol(s: Seq<OccView>, n: Seq<char>, q: Seq<Seq<char>>, k: nat)
    requires
        forall|i: int| 0 <= i < s.len() ==> !((#[trigger] s[i]).declaration && s[i].name == n),
    ensures
        resolution(s, n, q, k) == Seq::<OccView>::empty(),
    decreases k,
{
    let pn = |o: OccView| o.name == n;
    let pd = |o: OccView| o.declaration;
    let a = s.filter(pn);
    let not_decl = |o: OccView| !(o.declaration && o.name == n);
    lemma_filter_keeps(s, pn, not_decl);
    lemma_filter_none(a, pd);
    let b = a.filter(pd);
    lemma_filter_none(b, |o: OccView| o.scope == q.take(k as int));
    if k > 0 {
        lemma_unknown_symbol(s, n, q, (k - 1) as nat);
    }
}

} // verus!

use vstd::prelude::*;
use vstd::string::StringExecFns;
use crate::index::{copy_names, names_view, views, OccView, Occurrence};
use crate::token::{token_views, Token, TokView, TokenKind};

verus! {

pub open spec fn opens_named(k: TokenKind) -> bool {
    k == TokenKind::Class || k == TokenKind::Module
}

/// A constant token is a declaration when `class` or `module` stands just
/// before it, or `=` just after it.
pub open spec fn is_declaration(t: Seq<TokView>, j: int) -> bool {
    (j > 0 && opens_named(t[j - 1].0)) || (j + 1 < t.len() && t[j + 1].0 == TokenKind::Assign)
}

/// The nesting stack after the first `n` tokens: one entry per construct
/// still open, holding the name of a class or module and nothing for the rest.
/// A class or module is named by the constant that follows its keyword.
pub open spec fn frames(t: Seq<TokView>, n: int) -> Seq<Option<Seq<char>>>
    decreases n,
{
    if n <= 0 {
        Seq::empty()
    } else {
        let f = frames(t, n - 1);
        let m = n - 1;
        let k = t[m].0;
        if opens_named(k) {
            if m + 1 < t.len() && t[m + 1].0 == TokenKind::Constant {
                f
            } else {
                f.push(None)
            }
        } else if k == TokenKind::Constant && m > 0 && opens_named(t[m - 1].0) {
            f.push(Some(t[m].1))
        } else if k == TokenKind::Opener {
            f.push(None)
        } else if k == TokenKind::End && f.len() > 0 {
            f.drop_last()
        } else {
            f
        }
    }
}

/// The names held by a nesting stack, outermost first.
pub open spec fn scope_of(f: Seq<Option<Seq<char>>>) -> Seq<Seq<char>>
    decreases f.len(),
{
    if f.len() == 0 {
        Seq::empty()
    } else {
        let s = scope_of(f.drop_last());
        match f.last() {
            Some(x) => s.push(x),
            None => s,
        }
    }
}

/// The occurrence recorded for the constant token at `j`.
pub open spec fn occurrence_at(path: Seq<char>, t: Seq<TokView>, j: int) -> OccView {
    OccView {
        name: t[j].1,
        path: path,
        line: t[j].2,
        column: t[j].3,
        width: t[j].4,
        declaration: is_declaration(t, j),
        scope: scope_of(frames(t, j)),
    }
}

/// Names joined by `::`, as in `A::B::C`.
pub open spec fn joined(parts: Seq<Seq<char>>) -> Seq<char>
    decreases parts.len(),
{
    if parts.len() == 0 {
        Seq::empty()
    } else if parts.len() == 1 {
        parts[0]
    } else {
        joined(parts.drop_last()) + "::"@ + parts.last()
    }
}

/// The same declaration recorded under its fully qualified name.
pub open spec fn qualified(o: OccView) -> OccView {
    OccView { name: joined(o.scope.push(o.name)), ..o }
}

/// The occurrences recorded for the constant tokens among the first `n`, in
/// order: one under the token's own name, and for a declaration inside
/// modules or classes a second one under its fully qualified name.
pub open spec fn occurrences_in(path: Seq<char>, t: Seq<TokView>, n: int) -> Seq<OccView>
    decreases n,
{
    if n <= 0 {
        Seq::empty()
    } else if t[n - 1].0 == TokenKind::Constant {
        let o = occurrence_at(path, t, n - 1);
        let with_bare = occurrences_in(path, t, n - 1).push(o);
        if o.declaration && o.scope.len() > 0 {
            with_bare.push(qualified(o))
        } else {
            with_bare
        }
    } else {
        occurrences_in(path, t, n - 1)
    }
}

/// The names of `parts` joined by `::`.
fn join_names(parts: &Vec<String>) -> (r: String)
    requires
        parts@.len() > 0,
    ensures
        r@ == joined(names_view(parts@)),
{
    let mut r = parts[0].clone();
    let mut i: usize = 1;
    assert(names_view(parts@).take(1) =~= seq![parts@[0]@]);
    while i < parts.len()
        invariant
            1 <= i <= parts@.len(),
            r@ == joined(names_view(parts@).take(i as int)),
        decreases parts@.len() - i,
    {
        assert(names_view(parts@).take(i + 1).drop_last() =~= names_view(parts@).take(i as int));
        r.append("::");
        r.append(parts[i].as_str());
        i = i + 1;
    }
    assert(names_view(parts@).take(parts@.len() as int) =~= names_view(parts@));
    r
}

pub open spec fn frames_view(f: Seq<Option<String>>) -> Seq<Option<Seq<char>>> {
    f.map_values(
        |o: Option<String>|
            match o {
                Some(s) => Some(s@),
                None => None,
            },
    )
}

fn scope_names(f: &Vec<Option<String>>) -> (r: Vec<String>)
    ensures
        names_view(r@) == scope_of(frames_view(f@)),
{
    let mut r: Vec<String> = Vec::new();
    let mut i: usize = 0;
    while i < f.len()
        invariant
            i <= f@.len(),
            names_view(r@) == scope_of(frames_view(f@.take(i as int))),
        decreases f@.len() - i,
    {
        assert(frames_view(f@.take(i + 1)).drop_last() =~= frames_view(f@.take(i as int)));
        match &f[i] {
            Some(name) => {
                let ghost before = r@;
                r.push(name.clone());
                assert(names_view(r@) =~= names_view(before).push(name@));
            },
            None => {},
        }
        i = i + 1;
    }
    assert(f@.take(f@.len() as int) =~= f@);
    r
}

/// Records one occurrence for each constant token of a file, in file order.
pub fn index_tokens(path: &String, tokens: &Vec<Token>) -> (r: Vec<Occurrence>)
    ensures
        views(r@) == occurrences_in(path@, token_views(tokens@), tokens@.len() as int),
{
    let mut r: Vec<Occurrence> = Vec::new();
    let mut stack: Vec<Option<String>> = Vec::new();
    let n = tokens.len();
    let mut i: usize = 0;
    while i < n
        invariant
            n == tokens@.len(),
            i <= n,
            views(r@) == occurrences_in(path@, token_views(tokens@), i as int),
            frames_view(stack@) == frames(token_views(tokens@), i as int),
        decreases n - i,
    {
        let kind = tokens[i].kind;
        let after_opener = i > 0 && (tokens[i - 1].kind == TokenKind::Class || tokens[i - 1].kind
            == TokenKind::Module);
        if kind == TokenKind::Constant {
            let declaration = after_opener || (i + 1 < n && tokens[i + 1].kind
                == TokenKind::Assign);
            let scope = scope_names(&stack);
            let nested = declaration && scope.len() > 0;
            let qualified_name = if nested {
                let mut parts = copy_names(&scope);
                parts.push(tokens[i].text.clone());
                assert(names_view(parts@) =~= names_view(scope@).push(tokens@[i as int].text@));
                join_names(&parts)
            } else {
                String::new()
            };
            let occ = Occurrence {
                name: tokens[i].text.clone(),
                path: path.clone(),
                line: tokens[i].line,
                column: tokens[i].column,
                width: tokens[i].width,
                declaration,
                scope,
            };
            let ghost before = r@;
            if nested {
                let second = Occurrence {
                    name: qualified_name,
                    path: path.clone(),
                    line: occ.line,
                    column: occ.column,
                    width: occ.width,
                    declaration: true,
                    scope: copy_names(&occ.scope),
                };
                r.push(occ);
                let ghost mid = r@;
                r.push(second);
                assert(views(r@) =~= views(before).push(mid.last()@).push(r@.last()@));
            } else {
                r.push(occ);
                assert(views(r@) =~= views(before).push(r@.last()@));
            }
        }
        let ghost fs = stack@;
        if kind == TokenKind::Class || kind == TokenKind::Module {
            if !(i + 1 < n && tokens[i + 1].kind == TokenKind::Constant) {
                stack.push(None);
                assert(frames_view(stack@) =~= frames_view(fs).push(None));
            }
        } else if kind == TokenKind::Constant && after_opener {
            stack.push(Some(tokens[i].text.clone()));
            assert(frames_view(stack@) =~= frames_view(fs).push(Some(token_views(tokens@)[i as int].1)));
        } else if kind == TokenKind::Opener {
            stack.push(None);
            assert(frames_view(stack@) =~= frames_view(fs).push(None));
        } else if kind == TokenKind::End && stack.len() > 0 {
            stack.pop();
            assert(frames_view(stack@) =~= frames_view(fs).drop_last());
        }
        i = i + 1;
    }
    r
}

} // verus!

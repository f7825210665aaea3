//! Scalar-dependency analysis that decides whether two loops may be fused.

use vstd::prelude::*;
use vstd::string::StringSliceAdditionalSpecFns;

verus! {

broadcast use vstd::utf8::encode_utf8_decode_utf8;

/// A variable name.
pub type Ident = &'static str;

/// Expressions of the IR, as far as the dependency analysis reads them.
#[derive(Debug, PartialEq)]
pub enum Expr {
    /// Literal value.
    LitU32(u32),
    /// Variable reference.
    Var(Ident),
    /// Add two sub-expressions.
    Add(Box<Expr>, Box<Expr>),
    /// Atomic compare-exchange: `atomicCAS(addr, expected, value)`.
    Atomic { index: Box<Expr>, expected: Box<Expr>, value: Box<Expr> },
}

impl Clone for Expr {
    fn clone(&self) -> (r: Self)
        ensures
            r == *self,
        decreases self,
    {
        match self {
            Expr::LitU32(v) => Expr::LitU32(*v),
            Expr::Var(name) => Expr::Var(*name),
            Expr::Add(a, b) => Expr::Add(Box::new((&**a).clone()), Box::new((&**b).clone())),
            Expr::Atomic { index, expected, value } => Expr::Atomic {
                index: Box::new((&**index).clone()),
                expected: Box::new((&**expected).clone()),
                value: Box::new((&**value).clone()),
            },
        }
    }
}

/// A statement in a loop body.
#[derive(Debug)]
pub enum Stmt {
    /// Assign expression result to a variable.
    Assign(Ident, Expr),
}

impl Clone for Stmt {
    fn clone(&self) -> (r: Self)
        ensures
            r == *self,
    {
        match self {
            Stmt::Assign(name, e) => Stmt::Assign(*name, e.clone()),
        }
    }
}

/// A loop body.
#[derive(Debug)]
pub struct LoopBody {
    pub stmts: Vec<Stmt>,
}

impl Clone for LoopBody {
    fn clone(&self) -> (r: Self)
        ensures
            r.stmts@ == self.stmts@,
    {
        let mut stmts: Vec<Stmt> = Vec::new();
        let mut i: usize = 0;
        while i < self.stmts.len()
            invariant
                i <= self.stmts.len(),
                stmts@ == self.stmts@.subrange(0, i as int),
            decreases self.stmts.len() - i,
        {
            stmts.push(self.stmts[i].clone());
            i = i + 1;
        }
        LoopBody { stmts }
    }
}

/// The variables an expression reads. Every operand of a compare-exchange is
/// read, the `expected` operand included: the exchange compares memory
/// against it.
pub open spec fn expr_reads(e: Expr) -> Set<Seq<char>>
    decreases e,
{
    match e {
        Expr::LitU32(_) => Set::empty(),
        Expr::Var(name) => set![name@],
        Expr::Add(a, b) => expr_reads(*a) + expr_reads(*b),
        Expr::Atomic { index, expected, value } => expr_reads(*index) + expr_reads(*expected)
            + expr_reads(*value),
    }
}

/// The name `x` occurs as a variable somewhere inside `e`, at any depth and
/// under any operand.
pub open spec fn var_occurs(e: Expr, x: Seq<char>) -> bool
    decreases e,
{
    match e {
        Expr::LitU32(_) => false,
        Expr::Var(name) => name@ == x,
        Expr::Add(a, b) => var_occurs(*a, x) || var_occurs(*b, x),
        Expr::Atomic { index, expected, value } => var_occurs(*index, x) || var_occurs(*expected, x)
            || var_occurs(*value, x),
    }
}

/// An expression reads exactly the variables that occur in it.
pub proof fn lemma_reads_are_occurrences(e: Expr, x: Seq<char>)
    ensures
        expr_reads(e).contains(x) <==> var_occurs(e, x),
    decreases e,
{
    match e {
        Expr::LitU32(_) => {},
        Expr::Var(_) => {},
        Expr::Add(a, b) => {
            lemma_reads_are_occurrences(*a, x);
            lemma_reads_are_occurrences(*b, x);
        },
        Expr::Atomic { index, expected, value } => {
            lemma_reads_are_occurrences(*index, x);
            lemma_reads_are_occurrences(*expected, x);
            lemma_reads_are_occurrences(*value, x);
        },
    }
}

/// The statement assigns the variable `x`.
pub open spec fn stmt_assigns(s: Stmt, x: Seq<char>) -> bool {
    match s {
        Stmt::Assign(w, _) => w@ == x,
    }
}

/// The variable `x` occurs in the statement's expression.
pub open spec fn stmt_uses(s: Stmt, x: Seq<char>) -> bool {
    match s {
        Stmt::Assign(_, e) => var_occurs(e, x),
    }
}

/// Some statement of `a` assigns a variable that occurs in the expression of
/// some statement of `b`.
pub open spec fn written_then_occurs(a: Seq<Stmt>, b: Seq<Stmt>) -> bool {
    exists|i: int, j: int, x: Seq<char>|
        0 <= i < a.len() && 0 <= j < b.len() && #[trigger] stmt_assigns(a[i], x)
            && #[trigger] stmt_uses(b[j], x)
}

/// Fusion is blocked exactly when the second loop uses, anywhere in one of
/// its expressions, a variable that the first loop assigns.
pub proof fn lemma_dependency_is_occurrence(a: Seq<Stmt>, b: Seq<Stmt>)
    ensures
        has_scalar_dependency(a, b) <==> written_then_occurs(a, b),
{
    if has_scalar_dependency(a, b) {
        let x = choose|x: Seq<char>| stmts_write(a).contains(x) && stmts_read(b).contains(x);
        let i = choose|i: int| 0 <= i < a.len() && assigned_name(a[i]) == x;
        let j = choose|j: int|
            0 <= j < b.len() && #[trigger] expr_reads(assigned_expr(b[j])).contains(x);
        lemma_reads_are_occurrences(assigned_expr(b[j]), x);
        assert(stmt_assigns(a[i], x));
        assert(stmt_uses(b[j], x));
    }
    if written_then_occurs(a, b) {
        let (i, j, x) = choose|i: int, j: int, x: Seq<char>|
            0 <= i < a.len() && 0 <= j < b.len() && #[trigger] stmt_assigns(a[i], x)
                && #[trigger] stmt_uses(b[j], x);
        lemma_reads_are_occurrences(assigned_expr(b[j]), x);
        assert(stmts_write(a).contains(x));
        assert(expr_reads(assigned_expr(b[j])).contains(x));
        assert(stmts_read(b).contains(x));
    }
}

/// The variable a statement writes.
pub open spec fn assigned_name(s: Stmt) -> Seq<char> {
    match s {
        Stmt::Assign(name, _) => name@,
    }
}

/// The expression a statement evaluates.
pub open spec fn assigned_expr(s: Stmt) -> Expr {
    match s {
        Stmt::Assign(_, e) => e,
    }
}

/// The variables written by a sequence of statements.
pub open spec fn stmts_write(stmts: Seq<Stmt>) -> Set<Seq<char>> {
    Set::new(|x: Seq<char>| exists|i: int| 0 <= i < stmts.len() && assigned_name(stmts[i]) == x)
}

/// The variables read by a sequence of statements.
pub open spec fn stmts_read(stmts: Seq<Stmt>) -> Set<Seq<char>> {
    Set::new(
        |x: Seq<char>|
            exists|i: int| 0 <= i < stmts.len() && #[trigger] expr_reads(assigned_expr(stmts[i])).contains(x),
    )
}

/// Loop `b`, run after loop `a`, reads a scalar that `a` writes.
pub open spec fn has_scalar_dependency(a: Seq<Stmt>, b: Seq<Stmt>) -> bool {
    exists|x: Seq<char>| stmts_write(a).contains(x) && stmts_read(b).contains(x)
}

/// The names held in a list.
pub open spec fn names_of(v: Seq<Ident>) -> Set<Seq<char>> {
    Set::new(|x: Seq<char>| exists|i: int| 0 <= i < v.len() && v[i]@ == x)
}

/// No name occurs twice in a list (the list stands for a set).
pub open spec fn distinct_names(v: Seq<Ident>) -> bool {
    forall|i: int, j: int| 0 <= i < j < v.len() ==> v[i]@ != v[j]@
}

/// Compares two names by their bytes.
fn same_name(a: &str, b: &str) -> (r: bool)
    ensures
        r == (a@ == b@),
{
    let ab = a.as_bytes();
    let bb = b.as_bytes();
    if ab.len() != bb.len() {
        return false;
    }
    let mut i: usize = 0;
    while i < ab.len()
        invariant
            ab@ == a.spec_bytes(),
            bb@ == b.spec_bytes(),
            ab.len() == bb.len(),
            i <= ab.len(),
            forall|k: int| 0 <= k < i ==> ab@[k] == bb@[k],
        decreases ab.len() - i,
    {
        if ab[i] != bb[i] {
            return false;
        }
        i = i + 1;
    }
    assert(ab@ =~= bb@);
    assert(a@ == vstd::utf8::decode_utf8(a.spec_bytes()));
    assert(b@ == vstd::utf8::decode_utf8(b.spec_bytes()));
    true
}

/// Adds `name` to a list that stands for a set.
fn insert_name(out: &mut Vec<Ident>, name: Ident)
    requires
        distinct_names(old(out)@),
    ensures
        distinct_names(final(out)@),
        names_of(final(out)@) == names_of(old(out)@).insert(name@),
{
    let mut i: usize = 0;
    while i < out.len()
        invariant
            out@ == old(out)@,
            distinct_names(out@),
            i <= out.len(),
            forall|k: int| 0 <= k < i ==> out@[k]@ != name@,
        decreases out.len() - i,
    {
        if same_name(out[i], name) {
            assert(names_of(out@) =~= names_of(out@).insert(name@));
            return;
        }
        i = i + 1;
    }
    let ghost before = out@;
    out.push(name);
    assert(names_of(out@) =~= names_of(before).insert(name@)) by {
        assert forall|x: Seq<char>| names_of(before).insert(name@).contains(x) implies names_of(
            out@,
        ).contains(x) by {
            if x == name@ {
                assert(out@[before.len() as int]@ == x);
            } else {
                let k = choose|k: int| 0 <= k < before.len() && before[k]@ == x;
                assert(out@[k]@ == x);
            }
        }
        assert forall|x: Seq<char>| names_of(out@).contains(x) implies names_of(before).insert(
            name@,
        ).contains(x) by {
            let k = choose|k: int| 0 <= k < out@.len() && out@[k]@ == x;
            if k < before.len() {
                assert(before[k]@ == x);
            }
        }
    }
}

/// Collect all variables referenced by an expression into `out`, a list
/// that holds each name once.
pub fn collect_vars_in_expr(expr: &Expr, out: &mut Vec<Ident>)
    requires
        distinct_names(old(out)@),
    ensures
        distinct_names(final(out)@),
        names_of(final(out)@) == names_of(old(out)@) + expr_reads(*expr),
        forall|x: Seq<char>| var_occurs(*expr, x) ==> names_of(final(out)@).contains(x),
        forall|x: Seq<char>|
            var_occurs(*expr, x) ==> exists|i: int|
                0 <= i < final(out)@.len() && #[trigger] final(out)@[i]@ == x,
        forall|i: int|
            0 <= i < final(out)@.len() ==> (exists|j: int|
                0 <= j < old(out)@.len() && old(out)@[j]@ == #[trigger] final(out)@[i]@) || var_occurs(
                *expr,
                final(out)@[i]@,
            ),
        forall|x: Seq<char>|
            names_of(final(out)@).contains(x) ==> names_of(old(out)@).contains(x) || var_occurs(
                *expr,
                x,
            ),
    decreases expr,
{
    proof {
        assert forall|x: Seq<char>| expr_reads(*expr).contains(x) <==> var_occurs(*expr, x) by {
            lemma_reads_are_occurrences(*expr, x);
        }
    }
    let ghost old_out = out@;
    let ghost before = out@;
    match expr {
        Expr::LitU32(_) => {
            assert(names_of(out@) =~= names_of(before) + expr_reads(*expr));
        },
        Expr::Var(name) => {
            insert_name(out, *name);
            assert(names_of(out@) =~= names_of(before) + expr_reads(*expr));
        },
        Expr::Add(a, b) => {
            collect_vars_in_expr(&**a, out);
            collect_vars_in_expr(&**b, out);
            assert(names_of(out@) =~= names_of(before) + expr_reads(*expr));
        },
        Expr::Atomic { index, expected, value } => {
            collect_vars_in_expr(&**index, out);
            collect_vars_in_expr(&**expected, out);
            collect_vars_in_expr(&**value, out);
            assert(names_of(out@) =~= names_of(before) + expr_reads(*expr));
        },
    }
    proof {
        assert forall|x: Seq<char>| var_occurs(*expr, x) implies exists|i: int|
            0 <= i < out@.len() && #[trigger] out@[i]@ == x by {
            assert(names_of(out@).contains(x));
        }
        assert forall|i: int| 0 <= i < out@.len() implies (exists|j: int|
            0 <= j < old_out.len() && old_out[j]@ == #[trigger] out@[i]@) || var_occurs(
            *expr,
            out@[i]@,
        ) by {
            assert(names_of(out@).contains(out@[i]@));
        }
    }
}

/// Return true if fusing two loops would reorder a scalar read/write.
///
/// `a` runs before `b`. If `b` reads a scalar that `a` writes, fusion is
/// blocked (the interleaving would see different values).
pub fn fusion_has_scalar_dependency(a: &LoopBody, b: &LoopBody) -> (r: bool)
    ensures
        r == has_scalar_dependency(a.stmts@, b.stmts@),
        r == written_then_occurs(a.stmts@, b.stmts@),
{
    // Collect all writes in `a`.
    let mut writes_a: Vec<Ident> = Vec::new();
    let mut i: usize = 0;
    while i < a.stmts.len()
        invariant
            i <= a.stmts.len(),
            distinct_names(writes_a@),
            names_of(writes_a@) == stmts_write(a.stmts@.subrange(0, i as int)),
        decreases a.stmts.len() - i,
    {
        let ghost before = writes_a@;
        match &a.stmts[i] {
            Stmt::Assign(name, _) => insert_name(&mut writes_a, *name),
        }
        let ghost pre = a.stmts@.subrange(0, i as int);
        let ghost post = a.stmts@.subrange(0, i + 1);
        assert(stmts_write(post) =~= stmts_write(pre).insert(assigned_name(a.stmts@[i as int]))) by {
            assert forall|x: Seq<char>| stmts_write(post).contains(x) implies stmts_write(
                pre,
            ).insert(assigned_name(a.stmts@[i as int])).contains(x) by {
                let k = choose|k: int| 0 <= k < post.len() && assigned_name(post[k]) == x;
                if k < i {
                    assert(pre[k] == post[k]);
                }
            }
            assert forall|x: Seq<char>| stmts_write(pre).insert(
                assigned_name(a.stmts@[i as int]),
            ).contains(x) implies stmts_write(post).contains(x) by {
                if x == assigned_name(a.stmts@[i as int]) {
                    assert(post[i as int] == a.stmts@[i as int]);
                } else {
                    let k = choose|k: int| 0 <= k < pre.len() && assigned_name(pre[k]) == x;
                    assert(post[k] == pre[k]);
                }
            }
        }
        i = i + 1;
    }
    assert(a.stmts@.subrange(0, a.stmts.len() as int) =~= a.stmts@);

    // Collect all reads in `b`.
    let mut reads_b: Vec<Ident> = Vec::new();
    let mut i: usize = 0;
    while i < b.stmts.len()
        invariant
            i <= b.stmts.len(),
            distinct_names(reads_b@),
            names_of(reads_b@) == stmts_read(b.stmts@.subrange(0, i as int)),
        decreases b.stmts.len() - i,
    {
        match &b.stmts[i] {
            Stmt::Assign(_, expr) => collect_vars_in_expr(expr, &mut reads_b),
        }
        let ghost pre = b.stmts@.subrange(0, i as int);
        let ghost post = b.stmts@.subrange(0, i + 1);
        let ghost e = assigned_expr(b.stmts@[i as int]);
        assert(stmts_read(post) =~= stmts_read(pre) + expr_reads(e)) by {
            assert forall|x: Seq<char>| stmts_read(post).contains(x) implies (stmts_read(pre)
                + expr_reads(e)).contains(x) by {
                let k = choose|k: int|
                    0 <= k < post.len() && #[trigger] expr_reads(assigned_expr(post[k])).contains(x);
                if k < i {
                    assert(pre[k] == post[k]);
                }
            }
            assert forall|x: Seq<char>| (stmts_read(pre) + expr_reads(e)).contains(
                x,
            ) implies stmts_read(post).contains(x) by {
                if expr_reads(e).contains(x) {
                    assert(post[i as int] == b.stmts@[i as int]);
                } else {
                    let k = choose|k: int|
                        0 <= k < pre.len() && #[trigger] expr_reads(assigned_expr(pre[k])).contains(x);
                    assert(post[k] == pre[k]);
                }
            }
        }
        i = i + 1;
    }
    assert(b.stmts@.subrange(0, b.stmts.len() as int) =~= b.stmts@);

    // If any value written by `a` is read by `b`, there's a dependency.
    let mut i: usize = 0;
    while i < writes_a.len()
        invariant
            i <= writes_a.len(),
            names_of(writes_a@) == stmts_write(a.stmts@),
            names_of(reads_b@) == stmts_read(b.stmts@),
            forall|k: int| 0 <= k < i ==> !names_of(reads_b@).contains(#[trigger] writes_a@[k]@),
        decreases writes_a.len() - i,
    {
        let mut j: usize = 0;
        while j < reads_b.len()
            invariant
                i < writes_a.len(),
                j <= reads_b.len(),
                names_of(writes_a@) == stmts_write(a.stmts@),
                names_of(reads_b@) == stmts_read(b.stmts@),
                forall|k: int| 0 <= k < j ==> reads_b@[k]@ != writes_a@[i as int]@,
            decreases reads_b.len() - j,
        {
            if same_name(writes_a[i], reads_b[j]) {
                assert(names_of(writes_a@).contains(writes_a@[i as int]@));
                assert(names_of(reads_b@).contains(reads_b@[j as int]@));
                proof {
                    lemma_dependency_is_occurrence(a.stmts@, b.stmts@);
                }
                return true;
            }
            j = j + 1;
        }
        i = i + 1;
    }
    assert forall|x: Seq<char>| stmts_write(a.stmts@).contains(x) implies !stmts_read(
        b.stmts@,
    ).contains(x) by {
        let k = choose|k: int| 0 <= k < writes_a@.len() && writes_a@[k]@ == x;
        assert(!names_of(reads_b@).contains(writes_a@[k]@));
    }
    proof {
        lemma_dependency_is_occurrence(a.stmts@, b.stmts@);
    }
    false
}

/// A write in the first loop that the second loop reads through the
/// `expected` operand of a compare-exchange is a dependency that blocks
/// fusion.
pub proof fn lemma_cas_expected_read_blocks_fusion(a: Seq<Stmt>, b: Seq<Stmt>, i: int, j: int)
    requires
        0 <= i < a.len(),
        0 <= j < b.len(),
        assigned_expr(b[j]) matches Expr::Atomic { expected, .. } && expr_reads(*expected).contains(
            assigned_name(a[i]),
        ),
    ensures
        has_scalar_dependency(a, b),
{
    let x = assigned_name(a[i]);
    assert(stmts_write(a).contains(x));
    assert(expr_reads(assigned_expr(b[j])).contains(x));
    assert(stmts_read(b).contains(x));
}

/// Adding statements to either loop never removes a dependency between them.
pub proof fn lemma_dependency_survives_longer_loops(
    a: Seq<Stmt>,
    b: Seq<Stmt>,
    more_a: Seq<Stmt>,
    more_b: Seq<Stmt>,
)
    requires
        has_scalar_dependency(a, b),
    ensures
        has_scalar_dependency(a + more_a, b + more_b),
{
    let x = choose|x: Seq<char>| stmts_write(a).contains(x) && stmts_read(b).contains(x);
    let i = choose|i: int| 0 <= i < a.len() && assigned_name(a[i]) == x;
    let j = choose|j: int| 0 <= j < b.len() && #[trigger] expr_reads(assigned_expr(b[j])).contains(x);
    assert((a + more_a)[i] == a[i]);
    assert((b + more_b)[j] == b[j]);
    assert(stmts_write(a + more_a).contains(x));
    assert(expr_reads(assigned_expr((b + more_b)[j])).contains(x));
    assert(stmts_read(b + more_b).contains(x));
}

} // verus!

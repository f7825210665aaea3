//! Peephole identity elimination: a fused multiply-add `a * b + c` whose
//! product is exactly zero is replaced by its addend `c`.

use vstd::prelude::*;

verus! {

/// A value in the operands table: a literal, or the result of an operation.
#[derive(Debug, Clone, Copy, PartialEq)]
pub enum Value {
    Literal(Literal),
    Result(u32),
}

/// The kind of a literal.
#[derive(Debug, Clone, Copy, PartialEq)]
pub enum Literal {
    I32(i32),
    /// Raw IEEE 754 single-precision bits: may be NaN, an infinity, or a number.
    F32(u32),
}

/// The biased exponent field of a single-precision float.
pub open spec fn f32_exponent(bits: u32) -> u32 {
    (bits >> 23u32) & 0xffu32
}

/// The fraction (mantissa) field of a single-precision float.
pub open spec fn f32_fraction(bits: u32) -> u32 {
    bits & 0x7f_ffffu32
}

impl Literal {
    /// The literal is zero: the integer 0, or +0.0 / -0.0 (exponent and
    /// fraction both zero, either sign).
    pub open spec fn numeric_zero(self) -> bool {
        match self {
            Literal::I32(v) => v == 0,
            Literal::F32(bits) => f32_exponent(bits) == 0 && f32_fraction(bits) == 0,
        }
    }

    /// The literal is finite: any integer, or a float whose exponent field is
    /// not all ones (all ones is an infinity or a NaN).
    pub open spec fn finite_numeric(self) -> bool {
        match self {
            Literal::I32(_) => true,
            Literal::F32(bits) => f32_exponent(bits) != 0xff,
        }
    }

    /// Return true if the literal is a numeric zero (positive or negative).
    pub fn is_numeric_zero(self) -> (r: bool)
        ensures
            r == self.numeric_zero(),
    {
        match self {
            Literal::I32(v) => v == 0,
            Literal::F32(bits) => {
                assert((bits == 0x0000_0000u32 || bits == 0x8000_0000u32) == (f32_exponent(bits)
                    == 0 && f32_fraction(bits) == 0)) by (bit_vector);
                // bit pattern for 0.0 or -0.0
                bits == 0x0000_0000 || bits == 0x8000_0000
            },
        }
    }

    /// Return true if the literal is finite (not NaN, not ±inf).
    /// Integers are always finite.
    pub fn is_finite_numeric(self) -> (r: bool)
        ensures
            r == self.finite_numeric(),
    {
        match self {
            Literal::I32(_) => true,
            Literal::F32(bits) => {
                assert((bits & 0x7F80_0000u32 != 0x7F80_0000u32) == (f32_exponent(bits) != 0xff))
                    by (bit_vector);
                // exponent all-ones → NaN or inf → non-finite
                bits & 0x7F80_0000 != 0x7F80_0000
            },
        }
    }
}

/// Operation kinds relevant to identity elimination.
#[derive(Debug, Clone, Copy, PartialEq)]
pub enum OpKind {
    /// Scalar literal (value stored elsewhere)
    Literal,
    /// fused multiply-add: result = a * b + c
    Fma,
    /// Store to memory (to make the test observable)
    Store,
}

/// An operation in the body.
#[derive(Debug)]
pub struct Op {
    pub kind: OpKind,
    /// Operand table indices.
    pub operands: Vec<u32>,
    /// The value this operation defines, if any.
    pub result: Option<u32>,
}

impl Clone for Op {
    fn clone(&self) -> (r: Self)
        ensures
            r.kind == self.kind,
            r.operands@ == self.operands@,
            r.result == self.result,
    {
        Op { kind: self.kind, operands: self.operands.clone(), result: self.result }
    }
}

/// The full body: a sequence of operations and the values they refer to.
pub struct Body {
    pub ops: Vec<Op>,
    /// Indexed via `Op::operands` and `Op::result`.
    pub values: Vec<Value>,
}

/// The literal stored at index `i` of the values table, if any.
pub open spec fn literal_at(values: Seq<Value>, i: int) -> Option<Literal> {
    if 0 <= i < values.len() {
        match values[i] {
            Value::Literal(lit) => Some(lit),
            Value::Result(_) => None,
        }
    } else {
        None
    }
}

/// A known literal zero.
pub open spec fn is_zero_literal(l: Option<Literal>) -> bool {
    l matches Some(x) && x.numeric_zero()
}

/// A known finite literal.
pub open spec fn is_finite_literal(l: Option<Literal>) -> bool {
    l matches Some(x) && x.finite_numeric()
}

/// The product of the two factors is exactly zero: one is a literal zero and
/// the other a finite literal (zero times an infinity or a NaN is a NaN).
pub open spec fn product_is_zero(a: Option<Literal>, b: Option<Literal>) -> bool {
    ||| is_zero_literal(a) && is_finite_literal(b)
    ||| is_zero_literal(b) && is_finite_literal(a)
}

/// An operation that the pass looks at: a multiply-add with its three operands.
pub open spec fn is_fma(op: Op) -> bool {
    op.kind is Fma && op.operands@.len() >= 3
}

/// An index that the remap table sends nowhere else.
pub open spec fn is_terminal(remap: Seq<Option<u32>>, i: int) -> bool {
    !(0 <= i < remap.len() && remap[i] is Some)
}

/// Follows the remap table from `idx` for at most `fuel` steps.
pub open spec fn resolve_within(remap: Seq<Option<u32>>, idx: int, fuel: nat) -> int
    decreases fuel,
{
    if fuel == 0 || is_terminal(remap, idx) {
        idx
    } else {
        resolve_within(remap, remap[idx].unwrap() as int, (fuel - 1) as nat)
    }
}

/// Operand `j` of `op`, followed through the remap table.
pub open spec fn resolved_operand(op: Op, remap: Seq<Option<u32>>, j: int, fuel: nat) -> int {
    resolve_within(remap, op.operands@[j] as int, fuel)
}

/// The result that `op` would have replaced by its addend: `op` is a
/// multiply-add defining a result, and the product of its factors (followed
/// through the remap table) is exactly zero.
pub open spec fn fold_attempt(op: Op, values: Seq<Value>, remap: Seq<Option<u32>>, fuel: nat) -> Option<int> {
    if is_fma(op) && op.result is Some && product_is_zero(
        literal_at(values, resolved_operand(op, remap, 0, fuel)),
        literal_at(values, resolved_operand(op, remap, 1, fuel)),
    ) {
        Some(op.result.unwrap() as int)
    } else {
        None
    }
}

/// The fold that `op` makes on the remap table, as (result, addend): its
/// result is replaced by its addend when the product of its factors is
/// exactly zero. A result that is its own addend is left alone.
pub open spec fn fold_of(op: Op, values: Seq<Value>, remap: Seq<Option<u32>>, fuel: nat) -> Option<
    (int, int),
> {
    match fold_attempt(op, values, remap, fuel) {
        Some(rid) => {
            let c = resolved_operand(op, remap, 2, fuel);
            if rid != c {
                Some((rid, c))
            } else {
                None
            }
        },
        None => None,
    }
}

/// The remap table after the first `k` operations have been examined.
pub open spec fn remap_after(ops: Seq<Op>, values: Seq<Value>, k: nat) -> Seq<Option<u32>>
    decreases k,
{
    if k == 0 {
        Seq::new(values.len(), |_i: int| None)
    } else {
        let prev = remap_after(ops, values, (k - 1) as nat);
        match fold_of(ops[k - 1], values, prev, ops.len()) {
            Some((rid, c)) => prev.update(rid, Some(c as u32)),
            None => prev,
        }
    }
}

/// Every multiply-add that the pass folds defines a result inside the values
/// table (the pass records the fold at that index).
pub open spec fn folds_in_range(ops: Seq<Op>, values: Seq<Value>) -> bool {
    forall|k: int|
        #![trigger ops[k]]
        0 <= k < ops.len() ==> (fold_attempt(ops[k], values, remap_after(ops, values, k as nat), ops.len())
            matches Some(rid) ==> rid < values.len())
}

/// The remap table once every operation has been examined.
pub open spec fn elim_remap(ops: Seq<Op>, values: Seq<Value>) -> Seq<Option<u32>> {
    remap_after(ops, values, ops.len())
}

/// What an operand becomes after identity elimination.
pub open spec fn rewritten(ops: Seq<Op>, values: Seq<Value>, operand: u32) -> u32 {
    resolve_within(elim_remap(ops, values), operand as int, ops.len()) as u32
}

/// `out` is what identity elimination makes of `ops`: the same kinds,
/// results and operand counts, with every operand rewritten.
pub open spec fn elim_output(ops: Seq<Op>, values: Seq<Value>, out: Seq<Op>) -> bool {
    &&& out.len() == ops.len()
    &&& forall|k: int|
        #![trigger out[k]]
        0 <= k < ops.len() ==> {
            &&& out[k].kind == ops[k].kind
            &&& out[k].result == ops[k].result
            &&& out[k].operands@.len() == ops[k].operands@.len()
            &&& forall|j: int|
                0 <= j < ops[k].operands@.len() ==> out[k].operands@[j] == rewritten(
                    ops,
                    values,
                    ops[k].operands@[j],
                )
        }
}

/// Orders the remap table: following an entry always reaches an entry that
/// was set later, so every chain ends.
spec fn ranked(remap: Seq<Option<u32>>, stamp: Seq<nat>, bound: nat) -> bool {
    &&& stamp.len() == remap.len()
    &&& forall|i: int|
        0 <= i < remap.len() && #[trigger] remap[i] is Some ==> {
            &&& stamp[i] < bound
            &&& !is_terminal(remap, remap[i].unwrap() as int) ==> stamp[i]
                < stamp[remap[i].unwrap() as int]
        }
}

/// How many steps a chain from `i` can still take.
spec fn chain_measure(remap: Seq<Option<u32>>, stamp: Seq<nat>, bound: nat, i: int) -> nat {
    if is_terminal(remap, i) {
        0
    } else {
        (bound - stamp[i]) as nat
    }
}

proof fn lemma_ranked_chain_ends(
    remap: Seq<Option<u32>>,
    stamp: Seq<nat>,
    bound: nat,
    idx: int,
    fuel: nat,
)
    requires
        ranked(remap, stamp, bound),
        fuel >= chain_measure(remap, stamp, bound, idx),
    ensures
        is_terminal(remap, resolve_within(remap, idx, fuel)),
    decreases fuel,
{
    if fuel > 0 && !is_terminal(remap, idx) {
        assert(remap[idx] is Some);
        lemma_ranked_chain_ends(remap, stamp, bound, remap[idx].unwrap() as int, (fuel - 1) as nat);
    }
}

/// Under a ranking, every chain ends within `bound` steps.
proof fn lemma_ranked_resolves(remap: Seq<Option<u32>>, stamp: Seq<nat>, bound: nat)
    requires
        ranked(remap, stamp, bound),
    ensures
        forall|idx: int| is_terminal(remap, #[trigger] resolve_within(remap, idx, bound)),
{
    assert forall|idx: int| is_terminal(remap, #[trigger] resolve_within(remap, idx, bound)) by {
        if !is_terminal(remap, idx) {
            assert(remap[idx] is Some);
        }
        lemma_ranked_chain_ends(remap, stamp, bound, idx, bound);
    }
}

proof fn lemma_ranked_weaken(remap: Seq<Option<u32>>, stamp: Seq<nat>, b1: nat, b2: nat)
    requires
        ranked(remap, stamp, b1),
        b1 <= b2,
    ensures
        ranked(remap, stamp, b2),
{
}

proof fn lemma_ranked_after_fold(
    remap: Seq<Option<u32>>,
    stamp: Seq<nat>,
    bound: nat,
    rid: int,
    c: u32,
)
    requires
        ranked(remap, stamp, bound),
        0 <= rid < remap.len(),
        is_terminal(remap, c as int),
        rid != c,
    ensures
        ranked(remap.update(rid, Some(c)), stamp.update(rid, bound), bound + 1),
{
    let r2 = remap.update(rid, Some(c));
    let s2 = stamp.update(rid, bound);
    assert forall|i: int| 0 <= i < r2.len() && #[trigger] r2[i] is Some implies {
        &&& s2[i] < bound + 1
        &&& !is_terminal(r2, r2[i].unwrap() as int) ==> s2[i] < s2[r2[i].unwrap() as int]
    } by {
        if i != rid {
            assert(remap[i] is Some);
            let j = remap[i].unwrap() as int;
            if j == rid {
            } else if !is_terminal(r2, j) {
                assert(!is_terminal(remap, j));
            }
        }
    }
}

/// Follows the remap table from `idx` to the index it finally stands for.
/// The chain from `idx` must end within `bound` steps.
fn resolve(idx: u32, remap: &Vec<Option<u32>>, Ghost(bound): Ghost<nat>) -> (r: u32)
    requires
        is_terminal(remap@, resolve_within(remap@, idx as int, bound)),
    ensures
        r == resolve_within(remap@, idx as int, bound),
        is_terminal(remap@, r as int),
{
    let mut cur = idx;
    let ghost mut fuel: nat = bound;
    while (cur as usize) < remap.len() && remap[cur as usize].is_some()
        invariant
            resolve_within(remap@, cur as int, fuel) == resolve_within(remap@, idx as int, bound),
            is_terminal(remap@, resolve_within(remap@, idx as int, bound)),
        decreases fuel,
    {
        let next = remap[cur as usize].unwrap();
        proof {
            assert(remap@[cur as int] is Some);
            fuel = (fuel - 1) as nat;
        }
        cur = next;
    }
    cur
}

/// The literal held at a values-table index, if any.
fn literal_at_index(values: &Vec<Value>, i: u32) -> (r: Option<Literal>)
    ensures
        r == literal_at(values@, i as int),
{
    if (i as usize) < values.len() {
        match values[i as usize] {
            Value::Literal(lit) => Some(lit),
            Value::Result(_) => None,
        }
    } else {
        None
    }
}

/// Identify-and-eliminate identity patterns: every multiply-add whose
/// product is exactly zero (a literal zero times a finite literal, after
/// earlier replacements) has its result replaced, in every operand, by its
/// addend; everything else is left as it was. A multiply-add whose addend
/// resolves to its own result has nothing to replace and is skipped.
pub fn identity_elim(body: &mut Body)
    requires
        folds_in_range(old(body).ops@, old(body).values@),
    ensures
        final(body).values@ == old(body).values@,
        elim_output(old(body).ops@, old(body).values@, final(body).ops@),
        // No operand is left naming a value that was folded away.
        forall|k: int, j: int|
            0 <= k < final(body).ops@.len() && 0 <= j < final(body).ops@[k].operands@.len()
                ==> is_terminal(
                elim_remap(old(body).ops@, old(body).values@),
                #[trigger] final(body).ops@[k].operands@[j] as int,
            ),
{
    let n = body.ops.len();
    let ghost ops0 = body.ops@;
    let ghost values0 = body.values@;

    // Map from a result index to the "effective" value after elimination
    // (i.e. which value index to use instead).
    let mut remap: Vec<Option<u32>> = Vec::new();
    let mut v: usize = 0;
    while v < body.values.len()
        invariant
            v <= body.values.len(),
            remap@ =~= Seq::new(v as nat, |_i: int| None::<u32>),
        decreases body.values.len() - v,
    {
        remap.push(None);
        v = v + 1;
    }
    let ghost mut stamp: Seq<nat> = Seq::new(remap@.len(), |_i: int| 0nat);
    assert(remap@ =~= remap_after(ops0, values0, 0));

    let mut i: usize = 0;
    while i < n
        invariant
            n == body.ops@.len(),
            body.ops@ == ops0,
            body.values@ == values0,
            folds_in_range(ops0, values0),
            i <= n,
            remap@.len() == values0.len(),
            remap@ == remap_after(ops0, values0, i as nat),
            ranked(remap@, stamp, i as nat),
        decreases n - i,
    {
        let op = &body.ops[i];
        proof {
            lemma_ranked_weaken(remap@, stamp, i as nat, n as nat);
            lemma_ranked_resolves(remap@, stamp, n as nat);
        }
        let is_fma_op = match op.kind {
            OpKind::Fma => op.operands.len() >= 3,
            _ => false,
        };
        if is_fma_op {
            // Resolve through previous remapping.
            let a = resolve(op.operands[0], &remap, Ghost(n as nat));
            let b = resolve(op.operands[1], &remap, Ghost(n as nat));
            let c = resolve(op.operands[2], &remap, Ghost(n as nat));

            let a_lit = literal_at_index(&body.values, a);
            let b_lit = literal_at_index(&body.values, b);

            let a_zero = match a_lit { Some(l) => l.is_numeric_zero(), None => false };
            let b_zero = match b_lit { Some(l) => l.is_numeric_zero(), None => false };
            let a_finite = match a_lit { Some(l) => l.is_finite_numeric(), None => false };
            let b_finite = match b_lit { Some(l) => l.is_finite_numeric(), None => false };

            if (a_zero && b_finite) || (b_zero && a_finite) {
                if let Some(rid) = op.result {
                    if rid != c {
                        proof {
                            assert(is_fma(ops0[i as int]));
                            assert(ops0[i as int] == ops0[i as int]);
                            lemma_ranked_after_fold(remap@, stamp, i as nat, rid as int, c);
                            stamp = stamp.update(rid as int, i as nat);
                        }
                        remap.set(rid as usize, Some(c));
                    }
                }
            }
        }
        i = i + 1;
    }

    // Apply remapping to all operand references.
    proof {
        lemma_ranked_resolves(remap@, stamp, n as nat);
    }
    let mut new_ops: Vec<Op> = Vec::new();
    let mut k: usize = 0;
    while k < n
        invariant
            n == body.ops@.len(),
            body.ops@ == ops0,
            body.values@ == values0,
            k <= n,
            remap@ == elim_remap(ops0, values0),
            forall|idx: int| is_terminal(remap@, #[trigger] resolve_within(remap@, idx, n as nat)),
            new_ops@.len() == k,
            forall|kk: int|
                #![trigger new_ops@[kk]]
                0 <= kk < k ==> {
                    &&& new_ops@[kk].kind == ops0[kk].kind
                    &&& new_ops@[kk].result == ops0[kk].result
                    &&& new_ops@[kk].operands@.len() == ops0[kk].operands@.len()
                    &&& forall|j: int|
                        0 <= j < ops0[kk].operands@.len() ==> new_ops@[kk].operands@[j] == rewritten(
                            ops0,
                            values0,
                            ops0[kk].operands@[j],
                        )
                    &&& forall|j: int|
                        0 <= j < ops0[kk].operands@.len() ==> is_terminal(
                            remap@,
                            new_ops@[kk].operands@[j] as int,
                        )
                },
        decreases n - k,
    {
        let op = &body.ops[k];
        let mut operands: Vec<u32> = Vec::new();
        let mut j: usize = 0;
        while j < op.operands.len()
            invariant
                op == ops0[k as int],
                remap@ == elim_remap(ops0, values0),
                forall|idx: int| is_terminal(remap@, #[trigger] resolve_within(remap@, idx, n as nat)),
                n == ops0.len(),
                j <= op.operands.len(),
                operands@.len() == j,
                forall|jj: int|
                    0 <= jj < j ==> operands@[jj] == rewritten(ops0, values0, op.operands@[jj]),
                forall|jj: int| 0 <= jj < j ==> is_terminal(remap@, operands@[jj] as int),
            decreases op.operands.len() - j,
        {
            let resolved = resolve(op.operands[j], &remap, Ghost(n as nat));
            operands.push(resolved);
            j = j + 1;
        }
        new_ops.push(Op { kind: op.kind, operands, result: op.result });
        k = k + 1;
    }
    body.ops = new_ops;
}

/// Operation `k` folded result `rid` into addend `c`: it is a multiply-add
/// defining `rid`, whose factors (as resolved when it was examined) are a
/// literal zero and a finite literal, and whose addend resolved to `c`.
pub open spec fn folded_at(ops: Seq<Op>, values: Seq<Value>, k: int, rid: int, c: int) -> bool {
    let remap = remap_after(ops, values, k as nat);
    &&& 0 <= k < ops.len()
    &&& ops[k].kind is Fma
    &&& ops[k].operands@.len() >= 3
    &&& ops[k].result == Some(rid as u32)
    &&& product_is_zero(
        literal_at(values, resolve_within(remap, ops[k].operands@[0] as int, ops.len())),
        literal_at(values, resolve_within(remap, ops[k].operands@[1] as int, ops.len())),
    )
    &&& c == resolve_within(remap, ops[k].operands@[2] as int, ops.len())
    &&& rid != c
}

proof fn lemma_remap_after_len(ops: Seq<Op>, values: Seq<Value>, k: nat)
    requires
        k <= ops.len(),
        folds_in_range(ops, values),
    ensures
        remap_after(ops, values, k).len() == values.len(),
    decreases k,
{
    if k > 0 {
        lemma_remap_after_len(ops, values, (k - 1) as nat);
        assert(ops[k - 1] == ops[(k - 1) as int]);
    }
}

proof fn lemma_resolve_is_index(remap: Seq<Option<u32>>, idx: int, fuel: nat)
    requires
        0 <= idx <= u32::MAX,
    ensures
        0 <= resolve_within(remap, idx, fuel) <= u32::MAX,
    decreases fuel,
{
    if fuel > 0 && !is_terminal(remap, idx) {
        lemma_resolve_is_index(remap, remap[idx].unwrap() as int, (fuel - 1) as nat);
    }
}

proof fn lemma_fold_justified_upto(ops: Seq<Op>, values: Seq<Value>, n: nat, rid: int, c: int)
    requires
        n <= ops.len(),
        0 <= c <= u32::MAX,
        folds_in_range(ops, values),
        0 <= rid < values.len(),
        remap_after(ops, values, n)[rid] == Some(c as u32),
    ensures
        exists|k: int| 0 <= k < n && #[trigger] folded_at(ops, values, k, rid, c),
    decreases n,
{
    if n == 0 {
        assert(remap_after(ops, values, 0)[rid] is None);
    } else {
        let k = n - 1;
        let prev = remap_after(ops, values, k as nat);
        lemma_remap_after_len(ops, values, k as nat);
        match fold_of(ops[k], values, prev, ops.len()) {
            Some((r, c2)) => {
                lemma_resolve_is_index(prev, ops[k].operands@[2] as int, ops.len());
                if r == rid {
                    assert(c2 == c);
                    assert(folded_at(ops, values, k, rid, c));
                } else {
                    assert(prev[rid] == Some(c as u32));
                    lemma_fold_justified_upto(ops, values, k as nat, rid, c);
                }
            },
            None => {
                lemma_fold_justified_upto(ops, values, k as nat, rid, c);
            },
        }
    }
}

/// Every replacement that identity elimination makes is exact: a result is
/// only ever replaced by the addend of a multiply-add that defines it and
/// whose factors are a literal zero and a finite literal. In particular a
/// multiply-add with an infinite or NaN factor is never folded.
pub proof fn lemma_every_fold_is_exact(ops: Seq<Op>, values: Seq<Value>, rid: int)
    requires
        folds_in_range(ops, values),
        0 <= rid < values.len(),
        elim_remap(ops, values)[rid] is Some,
    ensures
        exists|k: int|
            #[trigger] folded_at(ops, values, k, rid, elim_remap(ops, values)[rid].unwrap() as int),
{
    let c = elim_remap(ops, values)[rid].unwrap() as int;
    lemma_fold_justified_upto(ops, values, ops.len(), rid, c);
}

proof fn lemma_no_fold_without_fma(ops: Seq<Op>, values: Seq<Value>, k: nat)
    requires
        k <= ops.len(),
        forall|i: int| 0 <= i < ops.len() ==> !(#[trigger] ops[i].kind is Fma),
    ensures
        remap_after(ops, values, k) == Seq::new(values.len(), |_i: int| None::<u32>),
    decreases k,
{
    if k > 0 {
        lemma_no_fold_without_fma(ops, values, (k - 1) as nat);
        assert(!is_fma(ops[k - 1]));
    }
}

/// A body without multiply-adds is left as it was: nothing is folded and
/// every operand is rewritten to itself.
pub proof fn lemma_without_fma_nothing_changes(ops: Seq<Op>, values: Seq<Value>, operand: u32)
    requires
        forall|i: int| 0 <= i < ops.len() ==> !(#[trigger] ops[i].kind is Fma),
    ensures
        forall|i: int| 0 <= i < values.len() ==> #[trigger] elim_remap(ops, values)[i] is None,
        rewritten(ops, values, operand) == operand,
{
    lemma_no_fold_without_fma(ops, values, ops.len());
    let remap = elim_remap(ops, values);
    assert(is_terminal(remap, operand as int));
}

/// Builds a literal value; its index is filled in when it is added to a body.
pub fn literal(val: Literal) -> (r: (Value, u32))
    ensures
        r == (Value::Literal(val), 0u32),
{
    (Value::Literal(val), 0)
}

/// Appends operations and values to a body, handing back their indices.
pub trait BodyBuilder {
    fn add(&mut self, op: Op) -> u32;

    fn add_value(&mut self, v: Value) -> u32;
}

impl BodyBuilder for Body {
    /// Appends an operation; returns its index (taken modulo 2^32).
    fn add(&mut self, op: Op) -> (idx: u32)
        ensures
            idx == old(self).ops@.len() as u32,
            final(self).ops@ == old(self).ops@.push(op),
            final(self).values@ == old(self).values@,
    {
        let idx = self.ops.len() as u32;
        self.ops.push(op);
        idx
    }

    /// Appends a value; returns its index (taken modulo 2^32).
    fn add_value(&mut self, v: Value) -> (idx: u32)
        ensures
            idx == old(self).values@.len() as u32,
            final(self).values@ == old(self).values@.push(v),
            final(self).ops@ == old(self).ops@,
    {
        let idx = self.values.len() as u32;
        self.values.push(v);
        idx
    }
}

/// Following an index whose chain ends lands on a terminal index, and
/// following it again stays there: resolving twice is resolving once.
pub proof fn lemma_resolve_twice(remap: Seq<Option<u32>>, idx: int, fuel: nat, fuel2: nat)
    requires
        is_terminal(remap, resolve_within(remap, idx, fuel)),
    ensures
        resolve_within(remap, resolve_within(remap, idx, fuel), fuel2) == resolve_within(
            remap,
            idx,
            fuel,
        ),
{
}

/// Operation `m` defines the value at index `x`.
pub open spec fn defines(ops: Seq<Op>, m: int, x: int) -> bool {
    0 <= m < ops.len() && (ops[m].result matches Some(r) && r == x)
}

/// A body in SSA order: every result is defined once, inside the values
/// table, and a multiply-add only uses results of earlier operations.
pub open spec fn well_ordered(ops: Seq<Op>, values: Seq<Value>) -> bool {
    &&& forall|m: int|
        0 <= m < ops.len() && (#[trigger] ops[m]).result is Some ==> ops[m].result.unwrap()
            < values.len()
    &&& forall|m1: int, m2: int, x: int|
        #[trigger] defines(ops, m1, x) && #[trigger] defines(ops, m2, x) ==> m1 == m2
    &&& forall|k: int, j: int, m: int|
        0 <= k < ops.len() && ops[k].kind is Fma && 0 <= j < ops[k].operands@.len()
            && #[trigger] defines(ops, m, ops[k].operands@[j] as int) ==> m < k
}

/// The operation defining index `x`, or -1 when none does.
spec fn def_idx(ops: Seq<Op>, x: int) -> int {
    if exists|m: int| defines(ops, m, x) {
        choose|m: int| defines(ops, m, x)
    } else {
        -1
    }
}

proof fn lemma_def_idx(ops: Seq<Op>, values: Seq<Value>, x: int)
    requires
        well_ordered(ops, values),
    ensures
        -1 <= def_idx(ops, x) < ops.len(),
        def_idx(ops, x) >= 0 ==> defines(ops, def_idx(ops, x), x),
        forall|m: int| defines(ops, m, x) ==> def_idx(ops, x) == m,
{
    if exists|m: int| defines(ops, m, x) {
        let m0 = choose|m: int| defines(ops, m, x);
        assert forall|m: int| defines(ops, m, x) implies def_idx(ops, x) == m by {
            assert(defines(ops, m0, x));
        }
    }
}

/// Every entry of the table points at a value defined by an earlier
/// operation than the one that defines the entry.
spec fn descends(ops: Seq<Op>, remap: Seq<Option<u32>>) -> bool {
    forall|x: int|
        0 <= x < remap.len() && #[trigger] remap[x] is Some ==> 0 <= def_idx(ops, x) && def_idx(
            ops,
            remap[x].unwrap() as int,
        ) < def_idx(ops, x)
}

proof fn lemma_descending_chain(
    ops: Seq<Op>,
    values: Seq<Value>,
    remap: Seq<Option<u32>>,
    x: int,
    fuel: nat,
)
    requires
        well_ordered(ops, values),
        descends(ops, remap),
        fuel > def_idx(ops, x),
    ensures
        is_terminal(remap, resolve_within(remap, x, fuel)),
        def_idx(ops, resolve_within(remap, x, fuel)) <= def_idx(ops, x),
    decreases fuel,
{
    if !is_terminal(remap, x) {
        assert(remap[x] is Some);
        let y = remap[x].unwrap() as int;
        lemma_descending_chain(ops, values, remap, y, (fuel - 1) as nat);
    }
}

proof fn lemma_resolve_agree(
    ops: Seq<Op>,
    r1: Seq<Option<u32>>,
    r2: Seq<Option<u32>>,
    x: int,
    fuel: nat,
    d: int,
)
    requires
        descends(ops, r1),
        r1.len() == r2.len(),
        forall|z: int| 0 <= z < r1.len() && def_idx(ops, z) <= d ==> r1[z] == r2[z],
        def_idx(ops, x) <= d,
    ensures
        resolve_within(r1, x, fuel) == resolve_within(r2, x, fuel),
    decreases fuel,
{
    if 0 <= x < r1.len() {
        assert(r1[x] == r2[x]);
    }
    if fuel > 0 && !is_terminal(r1, x) {
        assert(r1[x] is Some);
        lemma_resolve_agree(ops, r1, r2, r1[x].unwrap() as int, (fuel - 1) as nat, d);
    }
}

/// Operand `j` of multiply-add `k` is defined, if at all, before `k`.
proof fn lemma_operand_defined_earlier(ops: Seq<Op>, values: Seq<Value>, k: int, j: int)
    requires
        well_ordered(ops, values),
        0 <= k < ops.len(),
        ops[k].kind is Fma,
        0 <= j < ops[k].operands@.len(),
    ensures
        def_idx(ops, ops[k].operands@[j] as int) < k,
{
    let o = ops[k].operands@[j] as int;
    lemma_def_idx(ops, values, o);
    if def_idx(ops, o) >= 0 {
        assert(defines(ops, def_idx(ops, o), o));
    }
}

proof fn lemma_remap_descends(ops: Seq<Op>, values: Seq<Value>, k: nat)
    requires
        well_ordered(ops, values),
        k <= ops.len(),
    ensures
        remap_after(ops, values, k).len() == values.len(),
        descends(ops, remap_after(ops, values, k)),
        forall|x: int|
            0 <= x < values.len() && (#[trigger] remap_after(ops, values, k)[x]) is Some
                ==> def_idx(ops, x) < k,
    decreases k,
{
    if k > 0 {
        let km = k - 1;
        lemma_remap_descends(ops, values, km as nat);
        let prev = remap_after(ops, values, km as nat);
        let n = ops.len();
        match fold_of(ops[km], values, prev, n) {
            Some((rid, c)) => {
                let o = ops[km].operands@[2] as int;
                assert(ops[km].result is Some);
                assert(defines(ops, km, rid));
                lemma_def_idx(ops, values, rid);
                lemma_def_idx(ops, values, o);
                lemma_operand_defined_earlier(ops, values, km, 2);
                lemma_descending_chain(ops, values, prev, o, n);
                lemma_resolve_is_index(prev, o, n);
                assert(ops[km] == ops[km]);
                let cur = remap_after(ops, values, k);
                assert(cur == prev.update(rid, Some(c as u32)));
                assert forall|x: int| 0 <= x < cur.len() && #[trigger] cur[x] is Some implies 0
                    <= def_idx(ops, x) && def_idx(ops, cur[x].unwrap() as int) < def_idx(
                    ops,
                    x,
                ) by {
                    if x != rid {
                        assert(prev[x] is Some);
                    }
                }
                assert forall|x: int|
                    0 <= x < values.len() && (#[trigger] remap_after(ops, values, k)[x]) is Some
                        implies def_idx(ops, x) < k by {
                    if x != rid {
                        assert(prev[x] is Some);
                    }
                }
            },
            None => {
            },
        }
    }
}

proof fn lemma_remap_settled(ops: Seq<Op>, values: Seq<Value>, k: nat, k2: nat)
    requires
        well_ordered(ops, values),
        k <= k2 <= ops.len(),
    ensures
        forall|x: int|
            0 <= x < values.len() && def_idx(ops, x) < k ==> (#[trigger] remap_after(
                ops,
                values,
                k2,
            )[x]) == remap_after(ops, values, k)[x],
    decreases k2,
{
    if k2 > k {
        let km = (k2 - 1) as int;
        lemma_remap_settled(ops, values, k, (k2 - 1) as nat);
        lemma_remap_descends(ops, values, (k2 - 1) as nat);
        let prev = remap_after(ops, values, (k2 - 1) as nat);
        match fold_of(ops[km], values, prev, ops.len()) {
            Some((rid, c)) => {
                assert(defines(ops, km, rid));
                lemma_def_idx(ops, values, rid);
                assert(ops[km] == ops[km]);
                assert forall|x: int|
                    0 <= x < values.len() && def_idx(ops, x) < k implies (#[trigger] remap_after(
                    ops,
                    values,
                    k2,
                )[x]) == remap_after(ops, values, k)[x] by {
                    assert(x != rid);
                    assert(remap_after(ops, values, k2)[x] == prev[x]);
                }
            },
            None => {
            },
        }
    }
}

proof fn lemma_same_remap(ops: Seq<Op>, values: Seq<Value>, out: Seq<Op>, k: nat)
    requires
        well_ordered(ops, values),
        elim_output(ops, values, out),
        k <= ops.len(),
    ensures
        remap_after(out, values, k) == remap_after(ops, values, k),
    decreases k,
{
    if k > 0 {
        let km = (k - 1) as int;
        let n = ops.len();
        lemma_same_remap(ops, values, out, (k - 1) as nat);
        let prev = remap_after(ops, values, (k - 1) as nat);
        let rn = remap_after(ops, values, n);
        lemma_remap_descends(ops, values, (k - 1) as nat);
        lemma_remap_descends(ops, values, n);
        lemma_remap_settled(ops, values, (k - 1) as nat, n);
        assert(out[km] == out[km]);
        if is_fma(ops[km]) {
            assert forall|j: int| 0 <= j < 3 implies resolved_operand(out[km], prev, j, n)
                == resolved_operand(ops[km], prev, j, n) by {
                let o = ops[km].operands@[j] as int;
                lemma_operand_defined_earlier(ops, values, km, j);
                lemma_resolve_agree(ops, prev, rn, o, n, def_idx(ops, o));
                lemma_descending_chain(ops, values, prev, o, n);
                lemma_resolve_is_index(prev, o, n);
                let r = resolve_within(prev, o, n);
                assert(out[km].operands@[j] == rewritten(ops, values, ops[km].operands@[j]));
                assert(out[km].operands@[j] as int == r);
            }
            assert(fold_of(out[km], values, prev, n) == fold_of(ops[km], values, prev, n));
        }
    }
}

/// Running identity elimination a second time changes nothing, on bodies in
/// SSA order (see `well_ordered`): the second run may be made (its
/// precondition holds) and what it produces is its input.
pub proof fn lemma_second_run_changes_nothing(ops: Seq<Op>, values: Seq<Value>, once: Seq<Op>)
    requires
        well_ordered(ops, values),
        elim_output(ops, values, once),
    ensures
        folds_in_range(once, values),
        elim_output(once, values, once),
{
    let n = ops.len();
    lemma_same_remap(ops, values, once, n);
    lemma_remap_descends(ops, values, n);
    let rn = remap_after(ops, values, n);
    assert forall|k: int| 0 <= k < once.len() implies (fold_attempt(
        #[trigger] once[k],
        values,
        remap_after(once, values, k as nat),
        once.len(),
    ) matches Some(rid) ==> rid < values.len()) by {
        assert(once[k].result == ops[k].result);
        assert(ops[k] == ops[k]);
    }
    assert forall|k: int| #![trigger once[k]] 0 <= k < once.len() implies forall|j: int|
        0 <= j < once[k].operands@.len() ==> once[k].operands@[j] == rewritten(
            once,
            values,
            once[k].operands@[j],
        ) by {
        assert forall|j: int| 0 <= j < once[k].operands@.len() implies once[k].operands@[j]
            == rewritten(once, values, once[k].operands@[j]) by {
            let o = ops[k].operands@[j] as int;
            lemma_def_idx(ops, values, o);
            lemma_descending_chain(ops, values, rn, o, n);
            lemma_resolve_is_index(rn, o, n);
            assert(once[k].operands@[j] == rewritten(ops, values, ops[k].operands@[j]));
        }
    }
}

/// An integer literal is zero exactly when its value is 0.
pub proof fn lemma_integer_zero(v: i32)
    ensures
        Literal::I32(v).numeric_zero() <==> v == 0,
{
}

/// Every integer literal is finite.
pub proof fn lemma_integer_finite(v: i32)
    ensures
        Literal::I32(v).finite_numeric(),
{
}

/// A float literal is zero exactly when every bit but the sign bit is clear
/// (+0.0 and -0.0).
pub proof fn lemma_float_zero(bits: u32)
    ensures
        Literal::F32(bits).numeric_zero() <==> bits & 0x7fff_ffffu32 == 0,
{
    assert((f32_exponent(bits) == 0 && f32_fraction(bits) == 0) <==> bits & 0x7fff_ffffu32 == 0)
        by (bit_vector);
}

/// A float literal is finite exactly when its magnitude bits lie below those
/// of infinity: ±inf is 0x7f80_0000 and every NaN lies above it.
pub proof fn lemma_float_finite(bits: u32)
    ensures
        Literal::F32(bits).finite_numeric() <==> bits & 0x7fff_ffffu32 < 0x7f80_0000u32,
{
    assert((f32_exponent(bits) != 0xff) <==> bits & 0x7fff_ffffu32 < 0x7f80_0000u32)
        by (bit_vector);
}

/// On integer factors the product is treated as zero exactly when it is zero.
pub proof fn lemma_integer_product_zero(x: i32, y: i32)
    ensures
        product_is_zero(Some(Literal::I32(x)), Some(Literal::I32(y))) <==> x * y == 0,
{
    assert(x * y == 0 <==> (x == 0 || y == 0)) by (nonlinear_arith);
}

/// On float factors the product is treated as zero exactly when one factor
/// is ±0.0 and the other is neither an infinity nor a NaN.
pub proof fn lemma_float_product_zero(a: u32, b: u32)
    ensures
        product_is_zero(Some(Literal::F32(a)), Some(Literal::F32(b))) <==> (a & 0x7fff_ffffu32
            == 0 && b & 0x7fff_ffffu32 < 0x7f80_0000u32) || (b & 0x7fff_ffffu32 == 0 && a
            & 0x7fff_ffffu32 < 0x7f80_0000u32),
{
    lemma_float_zero(a);
    lemma_float_zero(b);
    lemma_float_finite(a);
    lemma_float_finite(b);
}

/// A factor that is not a known literal never lets the product count as zero.
pub proof fn lemma_unknown_factor_blocks_fold(l: Option<Literal>)
    ensures
        !product_is_zero(None, l),
        !product_is_zero(l, None),
{
}

/// The value at index `i` is read as a literal exactly when the table holds a
/// literal there.
pub proof fn lemma_literal_at_reads_table(values: Seq<Value>, i: int, l: Literal)
    ensures
        literal_at(values, i) == Some(l) <==> (0 <= i < values.len() && values[i] == Value::Literal(
            l,
        )),
{
}

/// Completeness of the fold: a multiply-add `k` defining `rid`, whose factors
/// (followed through the table as it stands when `k` is examined) are a
/// literal zero and a finite literal, and whose addend resolves to some
/// `c != rid`, sends `rid` to `c`, whatever kind of value `c` is.
pub proof fn lemma_fold_is_made(ops: Seq<Op>, values: Seq<Value>, k: int)
    requires
        folds_in_range(ops, values),
        0 <= k < ops.len(),
        ops[k].kind is Fma,
        ops[k].operands@.len() >= 3,
        ops[k].result is Some,
        product_is_zero(
            literal_at(values, resolve_within(remap_after(ops, values, k as nat), ops[k].operands@[0] as int, ops.len())),
            literal_at(values, resolve_within(remap_after(ops, values, k as nat), ops[k].operands@[1] as int, ops.len())),
        ),
        resolve_within(remap_after(ops, values, k as nat), ops[k].operands@[2] as int, ops.len())
            != ops[k].result.unwrap() as int,
    ensures
        remap_after(ops, values, (k + 1) as nat)[ops[k].result.unwrap() as int] == Some(
            resolve_within(remap_after(ops, values, k as nat), ops[k].operands@[2] as int, ops.len()) as u32,
        ),
{
    lemma_remap_after_len(ops, values, k as nat);
    assert(ops[k] == ops[k]);
    assert(remap_after(ops, values, (k + 1) as nat) == remap_after(ops, values, (k + 1 - 1) as nat).update(
        ops[k].result.unwrap() as int,
        Some(resolve_within(remap_after(ops, values, k as nat), ops[k].operands@[2] as int, ops.len()) as u32),
    ));
}

proof fn lemma_well_ordered_folds_in_range(ops: Seq<Op>, values: Seq<Value>)
    requires
        well_ordered(ops, values),
    ensures
        folds_in_range(ops, values),
{
    assert forall|k: int| #![trigger ops[k]] 0 <= k < ops.len() implies (fold_attempt(
        ops[k],
        values,
        remap_after(ops, values, k as nat),
        ops.len(),
    ) matches Some(rid) ==> rid < values.len()) by {
        assert(ops[k] == ops[k]);
    }
}

/// On bodies in SSA order, every use of a result folded as in
/// `lemma_fold_is_made` is rewritten to exactly that addend.
pub proof fn lemma_folded_result_rewritten_to_addend(ops: Seq<Op>, values: Seq<Value>, k: int)
    requires
        well_ordered(ops, values),
        0 <= k < ops.len(),
        ops[k].kind is Fma,
        ops[k].operands@.len() >= 3,
        ops[k].result is Some,
        product_is_zero(
            literal_at(values, resolve_within(remap_after(ops, values, k as nat), ops[k].operands@[0] as int, ops.len())),
            literal_at(values, resolve_within(remap_after(ops, values, k as nat), ops[k].operands@[1] as int, ops.len())),
        ),
        resolve_within(remap_after(ops, values, k as nat), ops[k].operands@[2] as int, ops.len())
            != ops[k].result.unwrap() as int,
    ensures
        rewritten(ops, values, ops[k].result.unwrap()) == resolve_within(
            remap_after(ops, values, k as nat),
            ops[k].operands@[2] as int,
            ops.len(),
        ) as u32,
{
    let n = ops.len();
    let rid = ops[k].result.unwrap() as int;
    let o = ops[k].operands@[2] as int;
    let rk = remap_after(ops, values, k as nat);
    let c = resolve_within(rk, o, n);
    let rn = remap_after(ops, values, n);
    lemma_well_ordered_folds_in_range(ops, values);
    lemma_fold_is_made(ops, values, k);
    assert(defines(ops, k, rid));
    lemma_def_idx(ops, values, rid);
    lemma_operand_defined_earlier(ops, values, k, 2);
    lemma_remap_descends(ops, values, k as nat);
    lemma_remap_descends(ops, values, (k + 1) as nat);
    lemma_remap_descends(ops, values, n);
    lemma_descending_chain(ops, values, rk, o, n);
    lemma_resolve_is_index(rk, o, n);
    lemma_remap_settled(ops, values, (k + 1) as nat, n);
    lemma_remap_after_len(ops, values, k as nat);
    assert(ops[k] == ops[k]);
    assert(rid < values.len());
    assert(rn[rid] == Some(c as u32));
    assert(is_terminal(rn, c)) by {
        if 0 <= c < values.len() {
            assert(rn[c] == remap_after(ops, values, (k + 1) as nat)[c]);
            assert(remap_after(ops, values, (k + 1) as nat)[c] == rk[c]);
        }
    }
    assert(resolve_within(rn, rid, n) == resolve_within(rn, c, (n - 1) as nat));
}

} // verus!

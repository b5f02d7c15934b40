//! The recurrence gate, and the witness rows that chain one step to the next.
use crate::decompose::{
    lemma_decomposition_round_trip, lemma_le_value_bound, pow256, quot, quotient_of, rem, remainder_of,
};
use crate::field::{field_order, le_value, FieldValue};
use crate::reference::{lcg_term, INCREMENT, MODULUS_EXPONENT, MULTIPLIER};
use vstd::arithmetic::div_mod::{
    lemma_add_mod_noop, lemma_fundamental_div_mod_converse, lemma_mod_bound, lemma_small_mod,
};
use vstd::arithmetic::mul::lemma_mul_is_commutative;
use vstd::prelude::*;

verus! {

/// Widest modulus, in bytes, that the constraint takes: `2^56`, so that the modulus
/// fits in a `u64` and one step `multiplier * x + adder` never wraps around the field.
pub const MAX_MODULUS_BYTES: usize = 7;

/// Parameters of the recurrence `x -> (multiplier * x + adder) % 256^modulus_bytes`
/// that the constraint checks on every enabled row.
#[derive(Clone, Copy, Debug, PartialEq, Eq)]
pub struct GachaConfig {
    pub multiplier: u64,
    pub adder: u64,
    pub modulus_bytes: usize,
}

/// One row of the witness: the previous term `x`, and the remainder and quotient of
/// `multiplier * x + adder` by the modulus. `None` is a value not known yet, as
/// when only the shape of the circuit is built.
#[derive(Clone, Copy, Debug, PartialEq, Eq)]
pub struct Row {
    pub x: Option<FieldValue>,
    pub remainder: Option<FieldValue>,
    pub quotient: Option<FieldValue>,
}

/// Every row holds known values, or every row holds unknown ones.
pub open spec fn all_known(rows: Seq<Row>, known: bool) -> bool {
    forall|i: int|
        0 <= i < rows.len() ==> {
            &&& (rows[i].x is Some) == known
            &&& (rows[i].remainder is Some) == known
            &&& (rows[i].quotient is Some) == known
        }
}

/// Each row's `x` cell is constrained equal to the remainder cell of the row before.
pub open spec fn chained(rows: Seq<Row>) -> bool {
    forall|i: int| 0 < i < rows.len() ==> rows[i].x == rows[i - 1].remainder
}

/// Every known remainder is in canonical form.
pub open spec fn remainders_wf(rows: Seq<Row>) -> bool {
    forall|i: int| 0 <= i < rows.len() ==> (#[trigger] rows[i].remainder matches Some(v) ==> v.wf())
}

/// How many rows a circuit of `iterations` steps has: the first row always
/// stands, so a circuit of zero steps has one row too.
pub open spec fn row_count(iterations: nat) -> nat {
    if iterations == 0 {
        1
    } else {
        iterations
    }
}

/// The cell bound to the public value in a circuit of `iterations` steps: the
/// first row's `x` cell (the seed reduced modulo the modulus) for zero steps,
/// else the last row's remainder cell.
pub open spec fn public_cell(rows: Seq<Row>, iterations: nat) -> Option<FieldValue> {
    if iterations == 0 {
        rows[0].x
    } else {
        rows.last().remainder
    }
}

impl GachaConfig {
    /// The modulus is one this circuit takes.
    pub open spec fn wf(&self) -> bool {
        self.modulus_bytes <= MAX_MODULUS_BYTES
    }

    /// The modulus `256^modulus_bytes`.
    pub open spec fn modulus(&self) -> nat {
        pow256(self.modulus_bytes as nat)
    }

    /// The term of this generator after `n` steps from `seed`.
    pub open spec fn term(&self, seed: nat, n: nat) -> nat {
        lcg_term(seed, self.multiplier as nat, self.adder as nat, self.modulus(), n)
    }

    /// `multiplier * x + adder` in the field.
    pub open spec fn step_value(&self, x: nat) -> nat {
        (self.multiplier as nat * x + self.adder as nat) % field_order()
    }

    /// The constraint on one row: `multiplier * x + adder - remainder - modulus * quotient == 0`
    /// in the field, with every cell known.
    pub open spec fn gate_holds(&self, row: Row) -> bool {
        match (row.x, row.remainder, row.quotient) {
            (Some(x), Some(r), Some(q)) => (self.multiplier as nat * x@ + self.adder as nat) % field_order() == (
            r@ + self.modulus() * q@) % field_order(),
            _ => false,
        }
    }

    /// What a prover checks, but for the range check: at least one row, the
    /// constraint on every row, every row chained to the one before, and the
    /// public cell of a circuit of `iterations` steps equal to `public`.
    pub open spec fn satisfied(&self, rows: Seq<Row>, iterations: nat, public: nat) -> bool {
        &&& rows.len() >= 1
        &&& forall|i: int| 0 <= i < rows.len() ==> self.gate_holds(#[trigger] rows[i])
        &&& chained(rows)
        &&& public_cell(rows, iterations) matches Some(v) && v@ == public
    }

    /// Every row satisfies the constraint, and each remainder is the reference term
    /// after one step more than the row's index, from `seed`.
    pub open spec fn follows_reference(&self, rows: Seq<Row>, seed: nat) -> bool {
        forall|j: int|
            0 <= j < rows.len() ==> {
                &&& self.gate_holds(#[trigger] rows[j])
                &&& rows[j].remainder->0@ == self.term(seed, (j + 1) as nat)
            }
    }

    /// The generator with the given parameters and modulus `2^modulus_exponent`;
    /// `None` unless the exponent is a multiple of 8 of at most 56.
    pub fn new(multiplier: u64, adder: u64, modulus_exponent: u64) -> (r: Option<GachaConfig>)
        ensures
            r is Some <==> modulus_exponent % 8 == 0 && modulus_exponent <= 8 * MAX_MODULUS_BYTES,
            r matches Some(c) ==> c.wf() && c.multiplier == multiplier && c.adder == adder
                && c.modulus_bytes == modulus_exponent / 8,
    {
        if modulus_exponent % 8 == 0 && modulus_exponent <= 8 * MAX_MODULUS_BYTES as u64 {
            Some(GachaConfig { multiplier, adder, modulus_bytes: (modulus_exponent / 8) as usize })
        } else {
            None
        }
    }

    /// The modulus as an integer.
    pub fn modulus_value(&self) -> (r: u64)
        requires
            self.wf(),
        ensures
            r == self.modulus(),
    {
        let mut r: u64 = 1;
        let mut i: usize = 0;
        while i < self.modulus_bytes
            invariant
                i <= self.modulus_bytes <= MAX_MODULUS_BYTES,
                r == pow256(i as nat),
            decreases self.modulus_bytes - i,
        {
            proof {
                lemma_pow256_le_max((i + 1) as nat);
            }
            r = r * 256;
            i = i + 1;
        }
        r
    }

    /// `multiplier * prev + adder` in the field, or unknown where `prev` is.
    pub fn next_value(&self, prev: Option<FieldValue>) -> (r: Option<FieldValue>)
        requires
            prev matches Some(v) ==> v.wf(),
        ensures
            (r is Some) == (prev is Some),
            prev matches Some(v) ==> r->0.wf() && r->0@ == self.step_value(v@),
    {
        match prev {
            Some(v) => {
                let a = FieldValue::from_u64(self.multiplier);
                let c = FieldValue::from_u64(self.adder);
                let r = v.mul(&a).add(&c);
                proof {
                    let p = field_order() as int;
                    lemma_mul_is_commutative(v@ as int, self.multiplier as int);
                    lemma_small_mod(self.adder as nat, field_order());
                    lemma_add_mod_noop(v@ * self.multiplier, self.adder as int, p);
                }
                Some(r)
            },
            None => None,
        }
    }

    /// The row whose `x` cell holds `x`, with the remainder and quotient of
    /// `multiplier * x + adder` by the modulus.
    fn row_from(&self, x: Option<FieldValue>) -> (r: Row)
        requires
            self.wf(),
            x matches Some(v) ==> v.wf(),
        ensures
            r.x == x,
            (r.remainder is Some) == (x is Some),
            (r.quotient is Some) == (x is Some),
            x matches Some(v) ==> {
                &&& self.gate_holds(r)
                &&& r.remainder->0.wf()
                &&& r.remainder->0@ == remainder_of(self.step_value(v@), self.modulus_bytes as nat)
                &&& r.quotient->0@ == quotient_of(self.step_value(v@), self.modulus_bytes as nat)
            },
    {
        let next = self.next_value(x);
        match next {
            Some(n) => {
                let r = rem(&n, self.modulus_bytes);
                let q = quot(&n, self.modulus_bytes);
                proof {
                    lemma_decomposition_round_trip(n, self.modulus_bytes as nat);
                    lemma_small_mod(n@, field_order());
                }
                Row { x, remainder: Some(r), quotient: Some(q) }
            },
            None => Row { x, remainder: None, quotient: None },
        }
    }

    /// The first row: its `x` cell holds the seed reduced modulo the modulus,
    /// and its remainder is the term after one step.
    pub fn assign_first_row(&self, seed: Option<FieldValue>) -> (r: Row)
        requires
            self.wf(),
            seed matches Some(s) ==> s.wf(),
        ensures
            all_known(seq![r], seed is Some),
            seed matches Some(s) ==> {
                &&& self.gate_holds(r)
                &&& r.x->0.wf()
                &&& r.x->0@ == self.term(s@, 0)
                &&& r.remainder->0@ == remainder_of(self.step_value(r.x->0@), self.modulus_bytes as nat)
                &&& r.quotient->0@ == quotient_of(self.step_value(r.x->0@), self.modulus_bytes as nat)
                &&& r.remainder->0@ == self.term(s@, 1)
                &&& r.remainder->0.wf()
                &&& r.quotient->0@ < quotient_bound()
            },
    {
        let x = match seed {
            Some(s) => Some(rem(&s, self.modulus_bytes)),
            None => None,
        };
        let r = self.row_from(x);
        proof {
            if let Some(s) = seed {
                lemma_term_bound(*self, s@, 0);
                lemma_step_exact(*self, x->0@);
            }
        }
        r
    }

    /// The row after `prev`: its `x` cell is constrained equal to the remainder
    /// cell of `prev`, never assigned afresh.
    pub fn assign_next_row(&self, prev: &Row) -> (r: Row)
        requires
            self.wf(),
            prev.remainder matches Some(v) ==> v.wf(),
        ensures
            r.x == prev.remainder,
            (r.remainder is Some) == (prev.remainder is Some),
            (r.quotient is Some) == (prev.remainder is Some),
            prev.remainder matches Some(v) ==> {
                &&& self.gate_holds(r)
                &&& r.remainder->0.wf()
                &&& r.remainder->0@ == remainder_of(self.step_value(v@), self.modulus_bytes as nat)
                &&& r.quotient->0@ == quotient_of(self.step_value(v@), self.modulus_bytes as nat)
                &&& v@ < self.modulus() ==> r.remainder->0@ == (v@ * self.multiplier as nat
                    + self.adder as nat) % self.modulus()
                &&& v@ < self.modulus() ==> r.quotient->0@ < quotient_bound()
            },
    {
        let r = self.row_from(prev.remainder);
        proof {
            if let Some(v) = prev.remainder {
                if v@ < self.modulus() {
                    lemma_step_exact(*self, v@);
                }
            }
        }
        r
    }

    /// The witness of a circuit of `iterations` steps: the first row from
    /// `seed`, then each next row chained to the one before. Zero iterations
    /// give one row, whose `x` cell is then the public cell. With the seed
    /// known, the rows satisfy the circuit whose public value is the reference
    /// term after `iterations` steps, the seed reduced modulo the modulus for zero.
    pub fn synthesize(&self, seed: Option<FieldValue>, iterations: u64) -> (rows: Vec<Row>)
        requires
            self.wf(),
            seed matches Some(s) ==> s.wf(),
        ensures
            rows@.len() == row_count(iterations as nat),
            all_known(rows@, seed is Some),
            chained(rows@),
            seed matches Some(s) ==> rows@[0].x->0@ == self.term(s@, 0),
            seed matches Some(s) ==> self.follows_reference(rows@, s@),
            seed is Some ==> in_range(*self, rows@),
            seed matches Some(s) ==> self.satisfied(rows@, iterations as nat, self.term(s@, iterations as nat)),
    {
        let ghost sv: nat = match seed {
            Some(s) => s@,
            None => 0,
        };
        let first = self.assign_first_row(seed);
        let mut rows: Vec<Row> = Vec::new();
        rows.push(first);
        proof {
            assert(rows@ =~= seq![first]);
            reveal(synthesis_invariant);
            if let Some(s) = seed {
                lemma_term_bound(*self, s@, 1);
            }
        }
        let mut i: u64 = 1;
        while i < iterations
            invariant
                self.wf(),
                1 <= i,
                i <= row_count(iterations as nat),
                rows@.len() == i,
                seed matches Some(s) ==> sv == s@ && rows@[0].x->0@ == self.term(sv, 0),
                synthesis_invariant(*self, rows@, seed is Some, sv),
                rows@.last().remainder matches Some(v) ==> v.wf(),
            decreases iterations - i,
        {
            let ghost prev = rows@;
            let last: usize = rows.len() - 1;
            let next = self.assign_next_row(&rows[last]);
            proof {
                lemma_extend(*self, prev, next, seed is Some, sv);
            }
            rows.push(next);
            proof {
                assert(rows@ =~= prev.push(next));
            }
            i = i + 1;
        }
        proof {
            reveal(synthesis_invariant);
            if seed is Some {
                let last = rows@.len() - 1;
                assert(self.gate_holds(rows@[last]));
            }
        }
        rows
    }
}

impl Default for GachaConfig {
    /// The standard generator: multiplier 214013, increment 2531011, modulus `2^32`.
    fn default() -> (r: GachaConfig)
        ensures
            r.wf(),
            r.multiplier == MULTIPLIER,
            r.adder == INCREMENT,
            r.modulus_bytes == MODULUS_EXPONENT / 8,
    {
        GachaConfig {
            multiplier: MULTIPLIER,
            adder: INCREMENT,
            modulus_bytes: (MODULUS_EXPONENT / 8) as usize,
        }
    }
}

/// What holds of the rows built so far.
#[verifier::opaque]
spec fn synthesis_invariant(c: GachaConfig, rows: Seq<Row>, known: bool, seed: nat) -> bool {
    &&& all_known(rows, known)
    &&& chained(rows)
    &&& remainders_wf(rows)
    &&& known ==> c.follows_reference(rows, seed)
    &&& known ==> in_range(c, rows)
}

/// Appending the row that `assign_next_row` builds after the last one keeps
/// the rows chained, and keeps them on the reference sequence.
proof fn lemma_extend(c: GachaConfig, rows: Seq<Row>, next: Row, known: bool, seed: nat)
    requires
        c.wf(),
        rows.len() >= 1,
        synthesis_invariant(c, rows, known, seed),
        next.x == rows.last().remainder,
        (next.remainder is Some) == (rows.last().remainder is Some),
        (next.quotient is Some) == (rows.last().remainder is Some),
        next.remainder matches Some(v) ==> v.wf(),
        rows.last().remainder matches Some(v) ==> {
            &&& c.gate_holds(next)
            &&& v@ < c.modulus() ==> next.remainder->0@ == (v@ * c.multiplier as nat
                + c.adder as nat) % c.modulus()
            &&& v@ < c.modulus() ==> next.quotient->0@ < quotient_bound()
        },
    ensures
        synthesis_invariant(c, rows.push(next), known, seed),
{
    reveal(synthesis_invariant);
    let n = rows.len();
    let all = rows.push(next);
    assert(all[n as int] == next);
    assert forall|j: int| 0 <= j < n implies all[j] == rows[j] by {}
    if known {
        lemma_term_bound(c, seed, n as nat);
        assert(rows[n - 1].remainder->0@ == c.term(seed, n as nat));
        assert(c.term(seed, (n + 1) as nat) == (c.term(seed, n as nat) * c.multiplier as nat
            + c.adder as nat) % c.modulus());
        lemma_term_bound(c, seed, (n + 1) as nat);
    }
}

/// A term of the sequence is below the modulus.
proof fn lemma_term_bound(c: GachaConfig, seed: nat, n: nat)
    requires
        c.wf(),
    ensures
        c.term(seed, n) < c.modulus(),
{
    lemma_pow256_le_max(c.modulus_bytes as nat);
    if n == 0 {
        lemma_mod_bound(seed as int, c.modulus() as int);
    } else {
        let prev = c.term(seed, (n - 1) as nat);
        lemma_mod_bound((prev * c.multiplier as nat + c.adder as nat) as int, c.modulus() as int);
    }
}

/// For `x` below the modulus, one step does not wrap around the field, and its
/// remainder is the next term of the integer recurrence.
proof fn lemma_step_exact(c: GachaConfig, x: nat)
    requires
        c.wf(),
        x < c.modulus(),
    ensures
        c.step_value(x) == c.multiplier as nat * x + c.adder as nat,
        remainder_of(c.step_value(x), c.modulus_bytes as nat) == (x * c.multiplier as nat
            + c.adder as nat) % c.modulus(),
        quotient_of(c.step_value(x), c.modulus_bytes as nat) < quotient_bound(),
{
    lemma_pow256_le_max(c.modulus_bytes as nat);
    let a = c.multiplier as nat;
    assert(a * x <= 0xffff_ffff_ffff_ffff * 0x100_0000_0000_0000) by (nonlinear_arith)
        requires
            a <= 0xffff_ffff_ffff_ffff,
            x <= 0x100_0000_0000_0000,
    ;
    lemma_small_mod(a * x + c.adder as nat, field_order());
    assert(a * x == x * a) by (nonlinear_arith);
    lemma_quotient_bound_value();
    let step = a * x + c.adder as nat;
    let m = c.modulus();
    assert(step / m <= step) by (nonlinear_arith)
        requires
            m > 0,
    ;
}

/// How many bytes of a quotient cell the range check covers.
pub const QUOTIENT_BYTES: usize = 16;

/// Bound that the range check on a quotient cell enforces: `2^128`.
pub open spec fn quotient_bound() -> nat {
    pow256(QUOTIENT_BYTES as nat)
}

/// Every cell of the rows is in range: each remainder below the modulus and
/// each quotient below `quotient_bound()`. The recurrence constraint alone does
/// not enforce this; the range check does (`lemma_range_checked_in_range`).
pub open spec fn in_range(c: GachaConfig, rows: Seq<Row>) -> bool {
    forall|i: int|
        0 <= i < rows.len() ==> {
            &&& (#[trigger] rows[i]).remainder->0@ < c.modulus()
            &&& rows[i].quotient->0@ < quotient_bound()
        }
}

/// Every remainder and quotient cell holds a field element in canonical form.
pub open spec fn cells_wf(rows: Seq<Row>) -> bool {
    forall|i: int|
        0 <= i < rows.len() ==> {
            &&& (#[trigger] rows[i]).remainder matches Some(r) && r.wf()
            &&& rows[i].quotient matches Some(q) && q.wf()
        }
}

impl GachaConfig {
    /// The range check on one row: its byte cells, each looked up in the table
    /// of bytes, are `remainder_bytes` (`modulus_bytes` of them) and
    /// `quotient_bytes` (`QUOTIENT_BYTES` of them), and the remainder and
    /// quotient cells equal in the field the sums of their bytes weighted by
    /// powers of 256, least significant first.
    pub open spec fn range_gate_holds(
        &self,
        row: Row,
        remainder_bytes: Seq<u8>,
        quotient_bytes: Seq<u8>,
    ) -> bool {
        &&& remainder_bytes.len() == self.modulus_bytes
        &&& quotient_bytes.len() == QUOTIENT_BYTES
        &&& row.remainder matches Some(r) && r@ % field_order() == le_value(remainder_bytes)
            % field_order()
        &&& row.quotient matches Some(q) && q@ % field_order() == le_value(quotient_bytes)
            % field_order()
    }

    /// The range check holds on every row, with the byte cells of row `i` in
    /// `remainder_bytes[i]` and `quotient_bytes[i]`.
    pub open spec fn range_checked(
        &self,
        rows: Seq<Row>,
        remainder_bytes: Seq<Seq<u8>>,
        quotient_bytes: Seq<Seq<u8>>,
    ) -> bool {
        &&& remainder_bytes.len() == rows.len()
        &&& quotient_bytes.len() == rows.len()
        &&& forall|i: int|
            0 <= i < rows.len() ==> self.range_gate_holds(
                #[trigger] rows[i],
                remainder_bytes[i],
                quotient_bytes[i],
            )
    }
}

/// The range check on canonical cells puts every remainder below the modulus
/// and every quotient below `quotient_bound()`.
pub proof fn lemma_range_checked_in_range(
    c: GachaConfig,
    rows: Seq<Row>,
    remainder_bytes: Seq<Seq<u8>>,
    quotient_bytes: Seq<Seq<u8>>,
)
    requires
        c.wf(),
        cells_wf(rows),
        c.range_checked(rows, remainder_bytes, quotient_bytes),
    ensures
        in_range(c, rows),
{
    lemma_pow256_le_max(c.modulus_bytes as nat);
    lemma_quotient_bound_value();
    assert forall|i: int| 0 <= i < rows.len() implies {
        &&& (#[trigger] rows[i]).remainder->0@ < c.modulus()
        &&& rows[i].quotient->0@ < quotient_bound()
    } by {
        assert(c.range_gate_holds(rows[i], remainder_bytes[i], quotient_bytes[i]));
        let r = rows[i].remainder->0@;
        let q = rows[i].quotient->0@;
        let rb = le_value(remainder_bytes[i]);
        let qb = le_value(quotient_bytes[i]);
        lemma_le_value_bound(remainder_bytes[i]);
        lemma_le_value_bound(quotient_bytes[i]);
        lemma_small_mod(r, field_order());
        lemma_small_mod(q, field_order());
        lemma_small_mod(rb, field_order());
        lemma_small_mod(qb, field_order());
    }
}

/// Soundness: any rows accepted by a circuit of `iterations` steps, with the
/// range check holding on canonical cells and a first `x` cell holding the
/// seed reduced modulo the modulus, expose as public value exactly the
/// reference term after `iterations` steps.
pub proof fn lemma_satisfied_rows_follow_reference(
    c: GachaConfig,
    rows: Seq<Row>,
    iterations: nat,
    public: nat,
    seed: nat,
    remainder_bytes: Seq<Seq<u8>>,
    quotient_bytes: Seq<Seq<u8>>,
)
    requires
        c.wf(),
        rows.len() == row_count(iterations),
        c.satisfied(rows, iterations, public),
        cells_wf(rows),
        c.range_checked(rows, remainder_bytes, quotient_bytes),
        rows[0].x matches Some(x) && x@ == c.term(seed, 0),
    ensures
        public == lcg_term(seed, c.multiplier as nat, c.adder as nat, c.modulus(), iterations),
{
    if iterations > 0 {
        lemma_range_checked_in_range(c, rows, remainder_bytes, quotient_bytes);
        lemma_prefix_follows_reference(c, rows, seed, (rows.len() - 1) as nat);
    }
}

proof fn lemma_prefix_follows_reference(c: GachaConfig, rows: Seq<Row>, seed: nat, i: nat)
    requires
        c.wf(),
        i < rows.len(),
        forall|j: int| 0 <= j < rows.len() ==> c.gate_holds(#[trigger] rows[j]),
        chained(rows),
        in_range(c, rows),
        rows[0].x matches Some(x) && x@ == c.term(seed, 0),
    ensures
        rows[i as int].remainder->0@ == c.term(seed, i + 1),
    decreases i,
{
    let row = rows[i as int];
    let x = row.x->0@;
    if i == 0 {
        lemma_term_bound(c, seed, 0);
    } else {
        lemma_prefix_follows_reference(c, rows, seed, (i - 1) as nat);
        assert(row.x == rows[i - 1].remainder);
        lemma_term_bound(c, seed, i);
    }
    assert(c.gate_holds(row));
    assert(x == c.term(seed, i));
    lemma_step_exact(c, x);
    let r = row.remainder->0@;
    let q = row.quotient->0@;
    let m = c.modulus();
    lemma_pow256_le_max(c.modulus_bytes as nat);
    lemma_quotient_bound_value();
    assert(m * q < 0x100_0000_0000_0000 * quotient_bound()) by (nonlinear_arith)
        requires
            0 < m <= 0x100_0000_0000_0000,
            q < quotient_bound(),
    ;
    lemma_small_mod(r + m * q, field_order());
    lemma_small_mod(c.step_value(x), field_order());
    assert(m * q == q * m) by (nonlinear_arith);
    lemma_fundamental_div_mod_converse(c.step_value(x) as int, m as int, q as int, r as int);
    assert(x * c.multiplier as nat == c.multiplier as nat * x) by (nonlinear_arith);
}

/// Chain integrity: changing the remainder cell of any row but the last,
/// while the next row's `x` cell keeps its value, makes the circuit unsatisfied
/// for every public value.
pub proof fn lemma_broken_chain_unsatisfied(
    c: GachaConfig,
    rows: Seq<Row>,
    iterations: nat,
    public: nat,
    i: int,
    changed: Row,
)
    requires
        c.satisfied(rows, iterations, public),
        0 <= i < rows.len() - 1,
        changed.x == rows[i].x,
        changed.quotient == rows[i].quotient,
        changed.remainder != rows[i].remainder,
    ensures
        forall|p: nat| !#[trigger] c.satisfied(rows.update(i, changed), iterations, p),
{
    let mutated = rows.update(i, changed);
    assert(mutated[i + 1].x == rows[i + 1].x);
    assert(rows[i + 1].x == rows[i].remainder);
    assert(!chained(mutated));
}

proof fn lemma_quotient_bound_value()
    ensures
        quotient_bound() == 0x1_0000_0000_0000_0000_0000_0000_0000_0000,
{
    reveal_with_fuel(pow256, 17);
}

/// `256^k` is at most `2^56` for the widths that the constraint takes.
proof fn lemma_pow256_le_max(k: nat)
    requires
        k <= MAX_MODULUS_BYTES,
    ensures
        pow256(k) <= 0x100_0000_0000_0000,
        pow256(k) > 0,
    decreases k,
{
    reveal_with_fuel(pow256, 8);
}

} // verus!

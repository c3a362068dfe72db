use vstd::prelude::*;
use crate::dimacs::{CnfBuilder, Variable, RegistryModel, reg_alloc, spec_dimacs};

verus! {

/// The four clauses of the directional implication gadget: with `t` the
/// fresh auxiliary variable, they force `t` whenever `a` and `b` both hold,
/// push the target polarity of `c` and the negation of `d` whenever `t`
/// holds, and force `t` whenever "`c` at target polarity and `d` at opposite
/// polarity" fails.
pub open spec fn implication_gadget_clauses(
    t: i32,
    a: i32,
    b: i32,
    c: i32,
    d: i32,
    c_positive: bool,
) -> Seq<Seq<i32>> {
    seq![
        seq![(-a) as i32, (-b) as i32, t],
        if c_positive {
            seq![(-t) as i32, c]
        } else {
            seq![(-t) as i32, (-c) as i32]
        },
        seq![(-t) as i32, (-d) as i32],
        if c_positive {
            seq![(-c) as i32, d, t]
        } else {
            seq![c, d, t]
        },
    ]
}

/// Whether position `i` of a card family is kept by the under-`k` filter.
pub open spec fn sel_under(i: int, k: int, is_odd: bool) -> bool {
    i + 1 < k && ((i % 2 != 0) != is_odd)
}

/// Whether position `i` of a card family is kept by the over-`k` filter.
pub open spec fn sel_over(i: int, k: int, is_odd: bool) -> bool {
    i + 1 > k && ((i % 2 != 0) != is_odd)
}

/// The cards at positions kept by the under-`k` filter, in order.
pub open spec fn cards_under(cards: Seq<Variable>, k: int, is_odd: bool) -> Seq<Variable>
    decreases cards.len(),
{
    if cards.len() == 0 {
        Seq::<Variable>::empty()
    } else {
        let prev = cards_under(cards.drop_last(), k, is_odd);
        if sel_under(cards.len() - 1, k, is_odd) {
            prev.push(cards.last())
        } else {
            prev
        }
    }
}

/// The cards at positions kept by the over-`k` filter, in order.
pub open spec fn cards_over(cards: Seq<Variable>, k: int, is_odd: bool) -> Seq<Variable>
    decreases cards.len(),
{
    if cards.len() == 0 {
        Seq::<Variable>::empty()
    } else {
        let prev = cards_over(cards.drop_last(), k, is_odd);
        if sel_over(cards.len() - 1, k, is_odd) {
            prev.push(cards.last())
        } else {
            prev
        }
    }
}

fn lits2(x: i32, y: i32) -> (r: Vec<i32>)
    ensures
        r@ == seq![x, y],
{
    let mut r: Vec<i32> = Vec::new();
    r.push(x);
    r.push(y);
    proof {
        assert(r@ =~= seq![x, y]);
    }
    r
}

fn lits3(x: i32, y: i32, z: i32) -> (r: Vec<i32>)
    ensures
        r@ == seq![x, y, z],
{
    let mut r: Vec<i32> = Vec::new();
    r.push(x);
    r.push(y);
    r.push(z);
    proof {
        assert(r@ =~= seq![x, y, z]);
    }
    r
}

/// A copy of one variable handle.
fn copy_variable(v: &Variable) -> (r: Variable)
    ensures
        r == *v,
{
    Variable { id: v.id, name: v.name.clone() }
}

/// The domain model that drives the clause engine.
pub struct NumComp {
    builder: CnfBuilder,
}

impl NumComp {
    /// The model's formula is well formed.
    pub closed spec fn wf(&self) -> bool {
        self.builder.wf()
    }

    /// The registry content of the model's formula.
    pub closed spec fn registry(&self) -> RegistryModel {
        self.builder.registry()
    }

    /// The clauses of the model's formula.
    pub closed spec fn clause_seq(&self) -> Seq<Seq<i32>> {
        self.builder.clause_seq()
    }

    pub fn new() -> (r: Self)
        ensures
            r.wf(),
            r.registry() == (RegistryModel {
                names: Seq::<Seq<char>>::empty(),
                ids: Seq::<int>::empty(),
                next: 1,
            }),
            r.clause_seq() == Seq::<Seq<i32>>::empty(),
    {
        NumComp { builder: CnfBuilder::new() }
    }

    /// The DIMACS text of the model's current formula.
    pub fn to_dimacs(&self) -> (r: String)
        requires
            self.wf(),
        ensures
            r@ == spec_dimacs(self.registry(), self.clause_seq()),
    {
        self.builder.to_dimacs()
    }

    /// The cards strictly below position `k` on the requested parity.
    pub fn get_cards_under_k(cards: &[Variable], k: usize, is_odd: bool) -> (r: Vec<Variable>)
        ensures
            r@ == cards_under(cards@, k as int, is_odd),
    {
        let mut r: Vec<Variable> = Vec::new();
        let mut i: usize = 0;
        while i < cards.len()
            invariant
                i <= cards@.len(),
                r@ == cards_under(cards@.take(i as int), k as int, is_odd),
            decreases cards@.len() - i,
        {
            proof {
                assert(cards@.take(i as int + 1).drop_last() =~= cards@.take(i as int));
                assert(cards@.take(i as int + 1).last() == cards@[i as int]);
            }
            if (i + 1) < k && ((i % 2 != 0) != is_odd) {
                let v = copy_variable(&cards[i]);
                r.push(v);
            }
            i += 1;
        }
        proof {
            assert(cards@.take(cards@.len() as int) =~= cards@);
        }
        r
    }

    /// The cards strictly above position `k` on the requested parity.
    pub fn get_cards_over_k(cards: &[Variable], k: usize, is_odd: bool) -> (r: Vec<Variable>)
        ensures
            r@ == cards_over(cards@, k as int, is_odd),
    {
        let mut r: Vec<Variable> = Vec::new();
        let mut i: usize = 0;
        while i < cards.len()
            invariant
                i <= cards@.len(),
                r@ == cards_over(cards@.take(i as int), k as int, is_odd),
            decreases cards@.len() - i,
        {
            proof {
                assert(cards@.take(i as int + 1).drop_last() =~= cards@.take(i as int));
                assert(cards@.take(i as int + 1).last() == cards@[i as int]);
            }
            if (i + 1) > k && ((i % 2 != 0) != is_odd) {
                let v = copy_variable(&cards[i]);
                r.push(v);
            }
            i += 1;
        }
        proof {
            assert(cards@.take(cards@.len() as int) =~= cards@);
        }
        r
    }

    /// Appends the gadget coupling "`a` and `b`" to "`c` and not `d`" through
    /// one fresh auxiliary variable.
    pub fn gen_dimacs_a_and_b_implies_c_and_not_d(
        cnf: &mut CnfBuilder,
        a: &Variable,
        b: &Variable,
        c: &Variable,
        d: &Variable,
    )
        requires
            old(cnf).wf(),
            old(cnf).registry().next < i32::MAX as int,
            a.id != i32::MIN,
            b.id != i32::MIN,
            c.id != i32::MIN,
            d.id != i32::MIN,
        ensures
            final(cnf).wf(),
            final(cnf).registry() == reg_alloc(old(cnf).registry()),
            final(cnf).clause_seq() == old(cnf).clause_seq() + implication_gadget_clauses(
                old(cnf).registry().next as i32,
                a.id,
                b.id,
                c.id,
                d.id,
                true,
            ),
            forall|j: int|
                0 <= j < old(cnf).registry().ids.len() ==> old(cnf).registry().ids[j] < old(
                    cnf,
                ).registry().next,
    {
        let tmp = cnf.get_tmp_variable();
        let l1 = lits3(a.negative(), b.negative(), tmp.positive());
        cnf.clause(l1.as_slice());
        let l2 = lits2(tmp.negative(), c.positive());
        cnf.clause(l2.as_slice());
        let l3 = lits2(tmp.negative(), d.negative());
        cnf.clause(l3.as_slice());
        let l4 = lits3(c.negative(), d.positive(), tmp.positive());
        cnf.clause(l4.as_slice());
        proof {
            assert(cnf.clause_seq() =~= old(cnf).clause_seq() + implication_gadget_clauses(
                old(cnf).registry().next as i32,
                a.id,
                b.id,
                c.id,
                d.id,
                true,
            ));
        }
    }

    /// Appends the gadget coupling "`a` and `b`" to "not `c` and not `d`"
    /// through one fresh auxiliary variable.
    pub fn gen_dimacs_a_and_b_implies_not_c_and_not_d(
        cnf: &mut CnfBuilder,
        a: &Variable,
        b: &Variable,
        c: &Variable,
        d: &Variable,
    )
        requires
            old(cnf).wf(),
            old(cnf).registry().next < i32::MAX as int,
            a.id != i32::MIN,
            b.id != i32::MIN,
            c.id != i32::MIN,
            d.id != i32::MIN,
        ensures
            final(cnf).wf(),
            final(cnf).registry() == reg_alloc(old(cnf).registry()),
            final(cnf).clause_seq() == old(cnf).clause_seq() + implication_gadget_clauses(
                old(cnf).registry().next as i32,
                a.id,
                b.id,
                c.id,
                d.id,
                false,
            ),
            forall|j: int|
                0 <= j < old(cnf).registry().ids.len() ==> old(cnf).registry().ids[j] < old(
                    cnf,
                ).registry().next,
    {
        let tmp = cnf.get_tmp_variable();
        let l1 = lits3(a.negative(), b.negative(), tmp.positive());
        cnf.clause(l1.as_slice());
        let l2 = lits2(tmp.negative(), c.negative());
        cnf.clause(l2.as_slice());
        let l3 = lits2(tmp.negative(), d.negative());
        cnf.clause(l3.as_slice());
        let l4 = lits3(c.positive(), d.positive(), tmp.positive());
        cnf.clause(l4.as_slice());
        proof {
            assert(cnf.clause_seq() =~= old(cnf).clause_seq() + implication_gadget_clauses(
                old(cnf).registry().next as i32,
                a.id,
                b.id,
                c.id,
                d.id,
                false,
            ));
        }
    }
}

} // verus!

use vstd::prelude::*;
use vstd::string::StringExecFns;
use rayon::iter::{IntoParallelIterator, ParallelIterator};
use crate::combinations::{
    spec_combinations, generate_combinations_optimized, lemma_combinations_sound,
    lemma_combinations_empty, lemma_subsequence_elements,
};

verus! {

/// One boolean proposition: a stable positive identifier and the name it was
/// interned under.
#[derive(Debug, Clone, PartialEq, Eq)]
pub struct Variable {
    pub id: i32,
    pub name: String,
}

impl Variable {
    /// The literal asserting this variable true.
    pub fn positive(&self) -> (r: i32)
        ensures
            r == self.id,
    {
        self.id
    }

    /// The literal asserting this variable false.
    pub fn negative(&self) -> (r: i32)
        requires
            self.id != i32::MIN,
        ensures
            r == -self.id,
    {
        -self.id
    }
}

/// The identifiers of a sequence of variables, in order.
pub open spec fn var_ids(vs: Seq<Variable>) -> Seq<i32> {
    vs.map_values(|v: Variable| v.id)
}

/// A clause with every literal negated.
pub open spec fn neg_clause(c: Seq<i32>) -> Seq<i32> {
    c.map_values(|l: i32| (-l) as i32)
}

/// The variables of `ids` that do not occur in `combo`, in order.
pub open spec fn rest_lits(ids: Seq<i32>, combo: Seq<i32>) -> Seq<i32>
    decreases ids.len(),
{
    if ids.len() == 0 {
        Seq::<i32>::empty()
    } else if combo.contains(ids[0]) {
        rest_lits(ids.drop_first(), combo)
    } else {
        seq![ids[0]] + rest_lits(ids.drop_first(), combo)
    }
}

/// "If exactly the variables of `combo` are false, some other variable is
/// true": the negations of `combo` followed by the remaining variables,
/// positive.
pub open spec fn at_least_clause(combo: Seq<i32>, ids: Seq<i32>) -> Seq<i32> {
    neg_clause(combo) + rest_lits(ids, combo)
}

/// One clause per `i`-subset of `ids` for every `i < k`, in ascending subset
/// size.
pub open spec fn at_least_clauses(k: nat, ids: Seq<i32>) -> Seq<Seq<i32>>
    decreases k,
{
    if k == 0 {
        Seq::<Seq<i32>>::empty()
    } else {
        at_least_clauses((k - 1) as nat, ids) + spec_combinations(ids, (k - 1) as nat).map_values(
            |c: Seq<i32>| at_least_clause(c, ids),
        )
    }
}

/// What an at-least-k request appends: nothing for `k == 0`, the clause family
/// for a satisfiable request, and the single empty clause for an impossible
/// one.
pub open spec fn at_least_result(k: nat, ids: Seq<i32>) -> Seq<Seq<i32>> {
    if k == 0 {
        Seq::<Seq<i32>>::empty()
    } else if k <= ids.len() {
        at_least_clauses(k, ids)
    } else {
        seq![Seq::<i32>::empty()]
    }
}

/// One all-negative clause per `(k + 1)`-subset of `ids`: no `k + 1` of them
/// may be simultaneously true.
pub open spec fn at_most_clauses(k: nat, ids: Seq<i32>) -> Seq<Seq<i32>> {
    spec_combinations(ids, (k + 1) as nat).map_values(|c: Seq<i32>| neg_clause(c))
}

/// The decimal digits of `n`, most significant first (`n < 0` handled by
/// `spec_int_string`).
pub open spec fn spec_digits(n: int) -> Seq<char>
    decreases n,
{
    if n < 10 {
        seq![digit_char(n)]
    } else {
        spec_digits(n / 10) + seq![digit_char(n % 10)]
    }
}

/// The character for one decimal digit.
pub open spec fn digit_char(d: int) -> char {
    if d == 0 {
        '0'
    } else if d == 1 {
        '1'
    } else if d == 2 {
        '2'
    } else if d == 3 {
        '3'
    } else if d == 4 {
        '4'
    } else if d == 5 {
        '5'
    } else if d == 6 {
        '6'
    } else if d == 7 {
        '7'
    } else if d == 8 {
        '8'
    } else {
        '9'
    }
}

/// The canonical decimal rendering of an integer.
pub open spec fn spec_int_string(n: int) -> Seq<char> {
    if n < 0 {
        seq!['-'] + spec_digits(-n)
    } else {
        spec_digits(n)
    }
}

/// Relies on the std `Display` implementation for `i32`: it writes the decimal
/// digits of the value, preceded by `-` when it is negative.
#[verifier::external_body]
fn i32_to_string(n: i32) -> (r: String)
    ensures
        r@ == spec_int_string(n as int),
{
    format!("{}", n)
}

/// Relies on the std `Display` implementation for `usize`: it writes the
/// decimal digits of the value.
#[verifier::external_body]
fn usize_to_string(n: usize) -> (r: String)
    ensures
        r@ == spec_int_string(n as int),
{
    format!("{}", n)
}

/// A clause with every literal negated.
fn negate_clause(clause: &Vec<i32>) -> (r: Vec<i32>)
    requires
        forall|i: int| 0 <= i < clause@.len() ==> clause@[i] != i32::MIN,
    ensures
        r@ == neg_clause(clause@),
{
    let mut r: Vec<i32> = Vec::new();
    let mut i: usize = 0;
    while i < clause.len()
        invariant
            i <= clause@.len(),
            forall|m: int| 0 <= m < clause@.len() ==> clause@[m] != i32::MIN,
            r@.len() == i,
            forall|m: int| 0 <= m < i ==> r@[m] == (-clause@[m]) as i32,
        decreases clause@.len() - i,
    {
        let x = clause[i];
        r.push(-x);
        i += 1;
    }
    proof {
        assert(r@ =~= neg_clause(clause@));
    }
    r
}

/// Whether `x` occurs in `v`.
fn contains_lit(v: &Vec<i32>, x: i32) -> (r: bool)
    ensures
        r == v@.contains(x),
{
    let mut i: usize = 0;
    while i < v.len()
        invariant
            i <= v@.len(),
            forall|m: int| 0 <= m < i ==> v@[m] != x,
        decreases v@.len() - i,
    {
        if v[i] == x {
            return true;
        }
        i += 1;
    }
    false
}

/// The at-least clause for one subset: its negations, then the positive
/// literals of every variable outside it.
fn build_at_least_clause(combo: &Vec<i32>, ids: &Vec<i32>) -> (r: Vec<i32>)
    requires
        forall|i: int| 0 <= i < combo@.len() ==> combo@[i] != i32::MIN,
    ensures
        r@ == at_least_clause(combo@, ids@),
{
    let mut r = negate_clause(combo);
    proof {
        assert(ids@.skip(0) =~= ids@);
    }
    let mut j: usize = 0;
    while j < ids.len()
        invariant
            j <= ids@.len(),
            at_least_clause(combo@, ids@) == r@ + rest_lits(ids@.skip(j as int), combo@),
        decreases ids@.len() - j,
    {
        proof {
            assert(ids@.skip(j as int).drop_first() =~= ids@.skip(j as int + 1));
            assert(ids@.skip(j as int)[0] == ids@[j as int]);
        }
        let x = ids[j];
        if !contains_lit(combo, x) {
            let ghost r0 = r@;
            r.push(x);
            proof {
                assert(r0 + (seq![x] + rest_lits(ids@.skip(j as int + 1), combo@)) =~= (r0 + seq![
                    x,
                ]) + rest_lits(ids@.skip(j as int + 1), combo@));
            }
        }
        j += 1;
    }
    proof {
        assert(ids@.skip(ids@.len() as int) =~= Seq::<i32>::empty());
        assert(r@ + Seq::<i32>::empty() =~= r@);
    }
    r
}

/// Relies on rayon's parallel iterator over a `Vec`: the parallel map applies
/// the closure to every element and `collect` returns the results in input
/// order.
#[verifier::external_body]
fn par_negate_clauses(combos: Vec<Vec<i32>>) -> (r: Vec<Vec<i32>>)
    requires
        forall|a: int, b: int|
            0 <= a < combos.deep_view().len() && 0 <= b < combos.deep_view()[a].len()
                ==> combos.deep_view()[a][b] != i32::MIN,
    ensures
        r.deep_view() == combos.deep_view().map_values(|c: Seq<i32>| neg_clause(c)),
{
    combos.into_par_iter().map(|combo| negate_clause(&combo)).collect()
}

/// Relies on rayon's parallel iterator over a `Vec`: the parallel map applies
/// the closure to every element and `collect` returns the results in input
/// order.
#[verifier::external_body]
fn par_at_least_clauses(combos: Vec<Vec<i32>>, ids: &Vec<i32>) -> (r: Vec<Vec<i32>>)
    requires
        forall|a: int, b: int|
            0 <= a < combos.deep_view().len() && 0 <= b < combos.deep_view()[a].len()
                ==> combos.deep_view()[a][b] != i32::MIN,
    ensures
        r.deep_view() == combos.deep_view().map_values(|c: Seq<i32>| at_least_clause(c, ids@)),
{
    combos.into_par_iter().map(|combo| build_at_least_clause(&combo, ids)).collect()
}

/// The position of the first occurrence of `n` in `names`.
pub open spec fn first_index(names: Seq<Seq<char>>, n: Seq<char>) -> int
    decreases names.len(),
{
    if names.len() == 0 {
        0
    } else if names[0] == n {
        0
    } else {
        1 + first_index(names.drop_first(), n)
    }
}

/// The registry's mathematical content: the interned names in first-seen
/// order, their identifiers, and the next identifier the shared counter will
/// hand out. Auxiliary variables consume a counter value without an entry in
/// the name table.
#[verifier::ext_equal]
pub struct RegistryModel {
    pub names: Seq<Seq<char>>,
    pub ids: Seq<int>,
    pub next: int,
}

/// The registry after looking up `n`: unchanged if the name is present, else
/// `n` is appended under the next identifier.
pub open spec fn reg_intern(r: RegistryModel, n: Seq<char>) -> RegistryModel {
    if r.names.contains(n) {
        r
    } else {
        (RegistryModel { names: r.names.push(n), ids: r.ids.push(r.next), next: r.next + 1 })
    }
}

/// The identifier that looking up `n` yields: the existing one if the name is
/// present, else the next counter value.
pub open spec fn reg_intern_id(r: RegistryModel, n: Seq<char>) -> int {
    if r.names.contains(n) {
        r.ids[first_index(r.names, n)]
    } else {
        r.next
    }
}

/// The registry after allocating one anonymous auxiliary identifier: the
/// counter advances, the name table is untouched.
pub open spec fn reg_alloc(r: RegistryModel) -> RegistryModel {
    RegistryModel { names: r.names, ids: r.ids, next: r.next + 1 }
}

proof fn lemma_first_index_of(names: Seq<Seq<char>>, n: Seq<char>, i: int)
    requires
        0 <= i < names.len(),
        names[i] == n,
        forall|j: int| 0 <= j < i ==> names[j] != n,
    ensures
        names.contains(n),
        first_index(names, n) == i,
    decreases i,
{
    assert(names.contains(n));
    if i == 0 {
    } else {
        assert(names[0] != n);
        lemma_first_index_of(names.drop_first(), n, i - 1);
    }
}

/// A name just appended is found at the former end of the registry.
proof fn lemma_first_index_push(names: Seq<Seq<char>>, n: Seq<char>)
    requires
        !names.contains(n),
    ensures
        first_index(names.push(n), n) == names.len(),
    decreases names.len(),
{
    if names.len() == 0 {
        assert(names.push(n)[0] == n);
    } else {
        assert(names[0] != n);
        assert forall|j: int| 0 <= j < names.drop_first().len() implies names.drop_first()[j]
            != n by {
            assert(names[j + 1] == names.drop_first()[j]);
        }
        lemma_first_index_push(names.drop_first(), n);
        assert(names.push(n).drop_first() =~= names.drop_first().push(n));
        assert(names.push(n)[0] == names[0]);
    }
}

/// Interning is stable: looking a name up again yields the same identifier
/// and leaves the registry unchanged.
pub proof fn lemma_intern_stable(r: RegistryModel, n: Seq<char>)
    requires
        r.ids.len() == r.names.len(),
    ensures
        reg_intern(reg_intern(r, n), n) == reg_intern(r, n),
        reg_intern_id(reg_intern(r, n), n) == reg_intern_id(r, n),
{
    if r.names.contains(n) {
    } else {
        let pushed = r.names.push(n);
        assert(pushed[r.names.len() as int] == n);
        assert(pushed.contains(n));
        lemma_first_index_push(r.names, n);
        assert(reg_intern(r, n).ids[first_index(pushed, n)] == r.next);
    }
}

/// The registry produced by interning `base + lo`, `base + (lo+1)`, ...,
/// `base + (hi-1)` in order, starting from `r`.
pub open spec fn range_reg(r: RegistryModel, base: Seq<char>, lo: int, hi: int) -> RegistryModel
    decreases hi - lo,
{
    if lo >= hi {
        r
    } else {
        range_reg(reg_intern(r, base + spec_int_string(lo)), base, lo + 1, hi)
    }
}

/// The identifiers handed back for `base + lo`, ..., `base + (hi-1)` in order,
/// starting from `r`.
pub open spec fn range_ids(r: RegistryModel, base: Seq<char>, lo: int, hi: int) -> Seq<int>
    decreases hi - lo,
{
    if lo >= hi {
        Seq::<int>::empty()
    } else {
        seq![reg_intern_id(r, base + spec_int_string(lo))] + range_ids(
            reg_intern(r, base + spec_int_string(lo)),
            base,
            lo + 1,
            hi,
        )
    }
}

/// The display label on a fresh auxiliary variable's handle; the label is not
/// interned, so an auxiliary never collides with a named variable.
pub open spec fn tmp_name(counter: int) -> Seq<char> {
    "tmp"@ + spec_int_string(counter)
}


/// The text of a clause's literals: each in decimal, each followed by a space.
pub open spec fn lits_text(c: Seq<i32>) -> Seq<char>
    decreases c.len(),
{
    if c.len() == 0 {
        Seq::<char>::empty()
    } else {
        lits_text(c.drop_last()) + spec_int_string(c.last() as int) + " "@
    }
}

/// One DIMACS clause line: the literals followed by the `0` terminator.
pub open spec fn clause_text(c: Seq<i32>) -> Seq<char> {
    lits_text(c) + "0\n"@
}

/// The clause lines of a formula, in clause order.
pub open spec fn clause_lines(cs: Seq<Seq<i32>>) -> Seq<char>
    decreases cs.len(),
{
    if cs.len() == 0 {
        Seq::<char>::empty()
    } else {
        clause_lines(cs.drop_last()) + clause_text(cs.last())
    }
}

/// One comment line per named variable, ascending by identifier (identifiers
/// are assigned in increasing order, so table order is identifier order).
pub open spec fn comment_lines(names: Seq<Seq<char>>, ids: Seq<int>) -> Seq<char>
    decreases names.len(),
{
    if names.len() == 0 {
        Seq::<char>::empty()
    } else {
        comment_lines(names.drop_last(), ids.drop_last()) + "c "@ + names.last() + ": "@
            + spec_int_string(ids[names.len() - 1]) + "\n"@
    }
}

/// The DIMACS header: the problem line with variable and clause counts.
pub open spec fn dimacs_header(num_vars: int, num_clauses: int) -> Seq<char> {
    "p cnf "@ + spec_int_string(num_vars) + " "@ + spec_int_string(num_clauses) + "\n"@
}

/// The full DIMACS text of a formula: header (highest identifier allocated,
/// named or auxiliary, and clause count), variable comments, clause lines.
pub open spec fn spec_dimacs(r: RegistryModel, cs: Seq<Seq<i32>>) -> Seq<char> {
    dimacs_header(r.next - 1, cs.len() as int) + comment_lines(r.names, r.ids) + clause_lines(cs)
}

/// Accumulates the clauses of a formula and the registry of named variables,
/// and renders both in DIMACS CNF text form.
pub struct CnfBuilder {
    variables: Vec<Variable>,
    clauses: Vec<Vec<i32>>,
    variable_counter: i32,
}

impl CnfBuilder {
    /// The registry's content: the named variables in first-seen order with
    /// their identifiers, and the next value of the shared counter.
    pub closed spec fn registry(&self) -> RegistryModel {
        RegistryModel {
            names: self.variables@.map_values(|v: Variable| v.name@),
            ids: self.variables@.map_values(|v: Variable| v.id as int),
            next: self.variable_counter as int,
        }
    }

    /// The clauses appended so far, in order.
    pub closed spec fn clause_seq(&self) -> Seq<Seq<i32>> {
        self.clauses.deep_view()
    }

    /// Identifiers are positive, strictly increasing in first-seen order and
    /// below the shared counter; names are never interned twice.
    pub closed spec fn wf(&self) -> bool {
        &&& 1 <= self.variable_counter as int
        &&& forall|i: int|
            0 <= i < self.variables@.len() ==> 1 <= (#[trigger] self.variables@[i]).id
        &&& forall|i: int|
            0 <= i < self.variables@.len() ==> (#[trigger] self.variables@[i]).id
                < self.variable_counter
        &&& forall|i: int, j: int|
            0 <= i < j < self.variables@.len() ==> self.variables@[i].id < self.variables@[j].id
        &&& forall|i: int, j: int|
            0 <= i < j < self.variables@.len() ==> self.variables@[i].name@
                != self.variables@[j].name@
    }

    pub fn new() -> (r: Self)
        ensures
            r.wf(),
            r.registry() == (RegistryModel {
                names: Seq::<Seq<char>>::empty(),
                ids: Seq::<int>::empty(),
                next: 1,
            }),
            r.clause_seq() == Seq::<Seq<i32>>::empty(),
    {
        let r = (CnfBuilder { variables: Vec::new(), clauses: Vec::new(), variable_counter: 1 });
        proof {
            assert(r.registry() =~~= (RegistryModel {
                names: Seq::<Seq<char>>::empty(),
                ids: Seq::<int>::empty(),
                next: 1,
            }));
            assert(r.clause_seq() =~= Seq::<Seq<i32>>::empty());
        }
        r
    }

    /// Like `new`, with space reserved for `capacity` clauses.
    pub fn with_capacity(capacity: usize) -> (r: Self)
        ensures
            r.wf(),
            r.registry() == (RegistryModel {
                names: Seq::<Seq<char>>::empty(),
                ids: Seq::<int>::empty(),
                next: 1,
            }),
            r.clause_seq() == Seq::<Seq<i32>>::empty(),
    {
        let r = (CnfBuilder {
            variables: Vec::new(),
            clauses: Vec::with_capacity(capacity),
            variable_counter: 1,
        });
        proof {
            assert(r.registry() =~~= (RegistryModel {
                names: Seq::<Seq<char>>::empty(),
                ids: Seq::<int>::empty(),
                next: 1,
            }));
            assert(r.clause_seq() =~= Seq::<Seq<i32>>::empty());
        }
        r
    }

    pub fn clause_count(&self) -> (r: usize)
        ensures
            r == self.clause_seq().len(),
    {
        self.clauses.len()
    }

    /// A copy of the clauses appended so far.
    pub fn get_clauses(&self) -> (r: Vec<Vec<i32>>)
        ensures
            r.deep_view() == self.clause_seq(),
    {
        let mut out: Vec<Vec<i32>> = Vec::new();
        let mut i: usize = 0;
        while i < self.clauses.len()
            invariant
                i <= self.clauses@.len(),
                out@.len() == i,
                forall|m: int|
                    0 <= m < i ==> #[trigger] out.deep_view()[m] == self.clauses.deep_view()[m],
            decreases self.clauses@.len() - i,
        {
            let mut c: Vec<i32> = Vec::new();
            let mut j: usize = 0;
            while j < self.clauses[i].len()
                invariant
                    i < self.clauses@.len(),
                    j <= self.clauses@[i as int]@.len(),
                    c@ =~= self.clauses@[i as int]@.take(j as int),
                decreases self.clauses@[i as int]@.len() - j,
            {
                let x = self.clauses[i][j];
                c.push(x);
                j += 1;
            }
            proof {
                assert(c.deep_view() =~= self.clauses.deep_view()[i as int]);
            }
            let ghost out0 = out;
            out.push(c);
            proof {
                assert forall|m: int|
                    0 <= m < i + 1 implies #[trigger] out.deep_view()[m]
                    == self.clauses.deep_view()[m] by {
                    assert(out.deep_view()[m] == out@[m].deep_view());
                    if m < i {
                        assert(out@[m] == out0@[m]);
                        assert(out0.deep_view()[m] == out0@[m].deep_view());
                    } else {
                        assert(out@[m] == c);
                    }
                }
            }
            i += 1;
        }
        proof {
            assert(out.deep_view() =~~= self.clause_seq());
        }
        out
    }

    /// Interns `name`: hands back the existing variable for it, or allocates
    /// the next identifier from the shared counter.
    pub fn variable(&mut self, name: String) -> (v: Variable)
        requires
            old(self).wf(),
            old(self).registry().next < i32::MAX as int,
        ensures
            final(self).wf(),
            final(self).clause_seq() == old(self).clause_seq(),
            final(self).registry() == reg_intern(old(self).registry(), name@),
            v.id as int == reg_intern_id(old(self).registry(), name@),
            v.id >= 1,
            v.name@ == name@,
    {
        let ghost reg0 = self.registry();
        let mut i: usize = 0;
        while i < self.variables.len()
            invariant
                i <= self.variables@.len(),
                forall|j: int| 0 <= j < i ==> self.registry().names[j] != name@,
                self.variables@ == old(self).variables@,
                self.clauses == old(self).clauses,
                self.variable_counter == old(self).variable_counter,
                self.wf(),
                reg0 == self.registry(),
            decreases self.variables@.len() - i,
        {
            if self.variables[i].name == name {
                proof {
                    assert(reg0.names.len() == self.variables@.len());
                    assert(reg0.names[i as int] == self.variables@[i as int].name@);
                    assert(reg0.names[i as int] == name@);
                    assert(forall|j: int| 0 <= j < i ==> reg0.names[j] != name@);
                    lemma_first_index_of(reg0.names, name@, i as int);
                    assert(reg0.ids[i as int] == self.variables@[i as int].id as int);
                    assert(reg_intern(reg0, name@) == reg0);
                }
                return (Variable {
                    id: self.variables[i].id,
                    name: self.variables[i].name.clone(),
                });
            }
            i += 1;
        }
        proof {
            assert(!reg0.names.contains(name@));
        }
        let id = self.variable_counter;
        self.variables.push(Variable { id, name: name.clone() });
        self.variable_counter = self.variable_counter + 1;
        proof {
            assert(self.registry().names =~= reg0.names.push(name@));
            assert(self.registry().ids =~= reg0.ids.push(reg0.next));
            assert(self.registry() =~~= reg_intern(reg0, name@));
            assert forall|a: int, b: int|
                0 <= a < b < self.variables@.len() implies self.variables@[a].name@
                != self.variables@[b].name@ by {
                if b == self.variables@.len() - 1 {
                    assert(self.variables@[a] == old(self).variables@[a]);
                    assert(reg0.names[a] == self.variables@[a].name@);
                }
            }
            assert forall|a: int, b: int|
                0 <= a < b < self.variables@.len() implies self.variables@[a].id
                < self.variables@[b].id by {
                if b == self.variables@.len() - 1 {
                    assert(self.variables@[a] == old(self).variables@[a]);
                }
            }
            assert forall|a: int|
                0 <= a < self.variables@.len() implies (#[trigger] self.variables@[a]).id
                < self.variable_counter by {
                if a < self.variables@.len() - 1 {
                    assert(self.variables@[a] == old(self).variables@[a]);
                }
            }
        }
        Variable { id, name }
    }

    /// Allocates a fresh auxiliary variable: it consumes the next value of
    /// the shared counter and enters no name into the registry, so its
    /// identifier never collides with any named variable's, past or future.
    /// The handle carries a `tmp`-prefixed label for display only.
    pub fn get_tmp_variable(&mut self) -> (v: Variable)
        requires
            old(self).wf(),
            old(self).registry().next < i32::MAX as int,
        ensures
            final(self).wf(),
            final(self).clause_seq() == old(self).clause_seq(),
            final(self).registry() == reg_alloc(old(self).registry()),
            v.id as int == old(self).registry().next,
            v.id >= 1,
            v.name@ == tmp_name(old(self).registry().next),
            forall|j: int|
                0 <= j < old(self).registry().ids.len() ==> old(self).registry().ids[j] < v.id
                    as int,
    {
        let id = self.variable_counter;
        self.variable_counter = self.variable_counter + 1;
        let digits = i32_to_string(id);
        let mut name = "tmp".to_owned();
        name.append(digits.as_str());
        proof {
            assert(self.registry() =~~= reg_alloc(old(self).registry()));
            assert forall|j: int|
                0 <= j < old(self).registry().ids.len() implies old(self).registry().ids[j] < id
                as int by {
                assert(old(self).registry().ids[j] == old(self).variables@[j].id as int);
            }
        }
        Variable { id, name }
    }

    /// Interns `base_name + i` for each `i` in `range`, in range order.
    pub fn variables(&mut self, base_name: &str, range: core::ops::Range<i32>) -> (r: Vec<
        Variable,
    >)
        requires
            old(self).wf(),
            old(self).registry().next + (if range.start <= range.end {
                range.end - range.start
            } else {
                0
            }) <= i32::MAX as int,
        ensures
            final(self).wf(),
            final(self).clause_seq() == old(self).clause_seq(),
            final(self).registry() == range_reg(
                old(self).registry(),
                base_name@,
                range.start as int,
                range.end as int,
            ),
            r@.map_values(|v: Variable| v.id as int) == range_ids(
                old(self).registry(),
                base_name@,
                range.start as int,
                range.end as int,
            ),
            forall|j: int|
                0 <= j < r@.len() ==> (#[trigger] r@[j]).name@ == base_name@ + spec_int_string(
                    range.start + j,
                ),
            forall|j: int| 0 <= j < r@.len() ==> (#[trigger] r@[j]).id >= 1,
            r@.len() == (if range.start <= range.end {
                range.end - range.start
            } else {
                0
            }),
    {
        let ghost reg0 = self.registry();
        let ghost lo = range.start as int;
        let ghost hi = range.end as int;
        let mut out: Vec<Variable> = Vec::new();
        if range.start >= range.end {
            proof {
                assert(out@.map_values(|v: Variable| v.id as int) =~= range_ids(
                    reg0,
                    base_name@,
                    lo,
                    hi,
                ));
            }
            return out;
        }
        let mut i: i32 = range.start;
        while i < range.end
            invariant
                lo == range.start as int,
                hi == range.end as int,
                range.start <= i <= range.end,
                self.wf(),
                self.clause_seq() == old(self).clause_seq(),
                self.registry().next <= reg0.next + (i - lo),
                reg0.next + (hi - lo) <= i32::MAX as int,
                out@.len() == i - lo,
                range_reg(reg0, base_name@, lo, hi) == range_reg(
                    self.registry(),
                    base_name@,
                    i as int,
                    hi,
                ),
                range_ids(reg0, base_name@, lo, hi) =~= out@.map_values(
                    |v: Variable| v.id as int,
                ) + range_ids(self.registry(), base_name@, i as int, hi),
                forall|j: int|
                    0 <= j < out@.len() ==> (#[trigger] out@[j]).name@ == base_name@
                        + spec_int_string(lo + j),
                forall|j: int| 0 <= j < out@.len() ==> (#[trigger] out@[j]).id >= 1,
            decreases range.end - i,
        {
            let digits = i32_to_string(i);
            let mut name = base_name.to_owned();
            name.append(digits.as_str());
            let ghost reg_before = self.registry();
            proof {
                assert(name@ == base_name@ + spec_int_string(i as int));
                assert(reg_before.next < i32::MAX as int);
                assert(range_reg(reg_before, base_name@, i as int, hi) == range_reg(
                    reg_intern(reg_before, base_name@ + spec_int_string(i as int)),
                    base_name@,
                    i as int + 1,
                    hi,
                ));
            }
            let v = self.variable(name);
            let ghost out0 = out@;
            out.push(v);
            proof {
                assert(out@.map_values(|v: Variable| v.id as int) =~= out0.map_values(
                    |v: Variable| v.id as int,
                ).push(reg_intern_id(reg_before, base_name@ + spec_int_string(i as int))));
                assert(out0.map_values(|v: Variable| v.id as int) + (seq![
                    reg_intern_id(reg_before, base_name@ + spec_int_string(i as int)),
                ] + range_ids(self.registry(), base_name@, i as int + 1, hi)) =~= out@.map_values(
                    |v: Variable| v.id as int,
                ) + range_ids(self.registry(), base_name@, i as int + 1, hi));
            }
            i += 1;
        }
        proof {
            assert(range_ids(reg0, base_name@, lo, hi) =~= out@.map_values(
                |v: Variable| v.id as int,
            ));
        }
        out
    }

    /// Appends one clause verbatim; the literals are not validated.
    pub fn clause(&mut self, literals: &[i32])
        requires
            old(self).wf(),
        ensures
            final(self).wf(),
            final(self).registry() == old(self).registry(),
            final(self).clause_seq() == old(self).clause_seq().push(literals@),
    {
        let mut c: Vec<i32> = Vec::new();
        let mut i: usize = 0;
        while i < literals.len()
            invariant
                i <= literals@.len(),
                c@ =~= literals@.take(i as int),
            decreases literals@.len() - i,
        {
            let x = literals[i];
            c.push(x);
            i += 1;
        }
        proof {
            assert(c@ =~= literals@);
        }
        let ghost cl0 = self.clauses;
        self.clauses.push(c);
        proof {
            assert forall|m: int|
                0 <= m < self.clauses@.len() implies #[trigger] self.clauses.deep_view()[m]
                == old(self).clause_seq().push(literals@)[m] by {
                assert(self.clauses.deep_view()[m] == self.clauses@[m].deep_view());
                if m < cl0@.len() {
                    assert(self.clauses@[m] == cl0@[m]);
                    assert(cl0.deep_view()[m] == cl0@[m].deep_view());
                }
            }
            assert(self.clause_seq() =~= old(self).clause_seq().push(literals@));
        }
    }

    /// Appends a batch of clauses in order.
    pub fn add_clauses_batch(&mut self, clauses: Vec<Vec<i32>>)
        requires
            old(self).wf(),
        ensures
            final(self).wf(),
            final(self).registry() == old(self).registry(),
            final(self).clause_seq() == old(self).clause_seq() + clauses.deep_view(),
    {
        let ghost cl0 = self.clauses;
        let ghost batch0 = clauses;
        let mut batch = clauses;
        self.clauses.append(&mut batch);
        proof {
            lemma_deep_view_append(cl0, batch0, self.clauses);
        }
    }

    /// Forbids more than `k` of `vars` true: one all-negative clause per
    /// `(k + 1)`-subset. Vacuous when `k + 1` exceeds the variable count.
    pub fn at_most_k_true(&mut self, k: usize, vars: &[Variable])
        requires
            old(self).wf(),
            forall|i: int| 0 <= i < vars@.len() ==> (#[trigger] vars@[i]).id >= 1,
        ensures
            final(self).wf(),
            final(self).registry() == old(self).registry(),
            final(self).clause_seq() == old(self).clause_seq() + at_most_clauses(
                k as nat,
                var_ids(vars@),
            ),
    {
        let ghost ids = var_ids(vars@);
        proof {
            assert forall|m: int| 0 <= m < ids.len() implies ids[m] >= 1 by {
                assert(ids[m] == vars@[m].id);
            }
        }
        if k < vars.len() {
            let idvec = collect_ids(vars);
            let combos = generate_combinations_optimized(idvec.as_slice(), k + 1);
            proof {
                lemma_combos_elements_positive(combos.deep_view(), idvec@, (k + 1) as nat);
            }
            let mut new_clauses = par_negate_clauses(combos);
            let ghost cl0 = self.clauses;
            let ghost nc0 = new_clauses;
            self.clauses.append(&mut new_clauses);
            proof {
                lemma_deep_view_append(cl0, nc0, self.clauses);
                assert(self.clause_seq() =~= old(self).clause_seq() + at_most_clauses(
                    k as nat,
                    ids,
                ));
            }
        } else {
            proof {
                lemma_combinations_empty(ids, (k + 1) as nat);
                assert(at_most_clauses(k as nat, ids) =~= Seq::<Seq<i32>>::empty());
                assert(old(self).clause_seq() + at_most_clauses(k as nat, ids) =~= old(
                    self,
                ).clause_seq());
            }
        }
    }

    /// Requires at least `k` of `vars` true: for every subset of fewer than
    /// `k` variables, a clause saying "if exactly these are false, another is
    /// true". An impossible request (`k` above the variable count) appends the
    /// empty, always-false clause.
    pub fn at_least_k_true(&mut self, k: usize, vars: &[Variable])
        requires
            old(self).wf(),
            forall|i: int| 0 <= i < vars@.len() ==> (#[trigger] vars@[i]).id >= 1,
        ensures
            final(self).wf(),
            final(self).registry() == old(self).registry(),
            final(self).clause_seq() == old(self).clause_seq() + at_least_result(
                k as nat,
                var_ids(vars@),
            ),
    {
        let ghost ids = var_ids(vars@);
        proof {
            assert forall|m: int| 0 <= m < ids.len() implies ids[m] >= 1 by {
                assert(ids[m] == vars@[m].id);
            }
        }
        if k == 0 {
            proof {
                assert(old(self).clause_seq() + at_least_result(0, ids) =~= old(self).clause_seq());
            }
            return ;
        }
        if k <= vars.len() {
            let idvec = collect_ids(vars);
            let mut all_new: Vec<Vec<i32>> = Vec::new();
            let mut i: usize = 0;
            while i < k
                invariant
                    i <= k,
                    idvec@ == ids,
                    forall|m: int| 0 <= m < ids.len() ==> ids[m] >= 1,
                    all_new.deep_view() == at_least_clauses(i as nat, ids),
                decreases k - i,
            {
                let combos = generate_combinations_optimized(idvec.as_slice(), i);
                proof {
                    lemma_combos_elements_positive(combos.deep_view(), idvec@, i as nat);
                }
                let ghost all0 = all_new;
                let mut batch = par_at_least_clauses(combos, &idvec);
                let ghost batch0 = batch;
                all_new.append(&mut batch);
                proof {
                    lemma_deep_view_append(all0, batch0, all_new);
                    assert(all_new.deep_view() =~= at_least_clauses((i + 1) as nat, ids));
                }
                i += 1;
            }
            let ghost cl0 = self.clauses;
            let ghost an0 = all_new;
            self.clauses.append(&mut all_new);
            proof {
                lemma_deep_view_append(cl0, an0, self.clauses);
                assert(self.clause_seq() =~= old(self).clause_seq() + at_least_result(
                    k as nat,
                    ids,
                ));
            }
        } else {
            let ghost cl0 = self.clauses;
            let empty_clause: Vec<i32> = Vec::new();
            self.clauses.push(empty_clause);
            proof {
                assert(empty_clause.deep_view() =~= Seq::<i32>::empty());
                assert forall|m: int|
                    0 <= m < self.clauses@.len() implies #[trigger] self.clauses.deep_view()[m]
                    == (old(self).clause_seq() + at_least_result(k as nat, ids))[m] by {
                    assert(self.clauses.deep_view()[m] == self.clauses@[m].deep_view());
                    if m < cl0@.len() {
                        assert(self.clauses@[m] == cl0@[m]);
                        assert(cl0.deep_view()[m] == cl0@[m].deep_view());
                    }
                }
                assert(self.clause_seq() =~= old(self).clause_seq() + at_least_result(
                    k as nat,
                    ids,
                ));
            }
        }
    }

    /// Exactly `k` of `vars` true: the at-least-k and at-most-k families
    /// together.
    pub fn exactly_k_true(&mut self, k: usize, vars: &[Variable])
        requires
            old(self).wf(),
            forall|i: int| 0 <= i < vars@.len() ==> (#[trigger] vars@[i]).id >= 1,
        ensures
            final(self).wf(),
            final(self).registry() == old(self).registry(),
            final(self).clause_seq() == old(self).clause_seq() + at_least_result(
                k as nat,
                var_ids(vars@),
            ) + at_most_clauses(k as nat, var_ids(vars@)),
    {
        self.at_least_k_true(k, vars);
        self.at_most_k_true(k, vars);
    }


    /// Renders the current formula as DIMACS CNF text: a `p cnf` header
    /// counting every allocated identifier (named or auxiliary), one comment
    /// line per named variable in identifier order, and one line per clause
    /// ending in `0`. Reading state only, it can be called repeatedly.
    pub fn to_dimacs(&self) -> (r: String)
        requires
            self.wf(),
        ensures
            r@ == spec_dimacs(self.registry(), self.clause_seq()),
    {
        let mut out = String::new();
        out.append("p cnf ");
        let vtext = i32_to_string(self.variable_counter - 1);
        out.append(vtext.as_str());
        out.append(" ");
        let ctext = usize_to_string(self.clauses.len());
        out.append(ctext.as_str());
        out.append("\n");
        let ghost header = dimacs_header(
            self.registry().next - 1,
            self.clause_seq().len() as int,
        );
        proof {
            assert(self.clause_seq().len() == self.clauses@.len());
            assert(out@ =~= header);
        }
        let mut i: usize = 0;
        while i < self.variables.len()
            invariant
                i <= self.variables@.len(),
                self.wf(),
                out@ == header + comment_lines(
                    self.registry().names.take(i as int),
                    self.registry().ids.take(i as int),
                ),
            decreases self.variables@.len() - i,
        {
            out.append("c ");
            out.append(self.variables[i].name.as_str());
            out.append(": ");
            let dtext = i32_to_string(self.variables[i].id);
            out.append(dtext.as_str());
            out.append("\n");
            proof {
                let names = self.registry().names;
                let ids = self.registry().ids;
                assert(names.take(i as int + 1).drop_last() =~= names.take(i as int));
                assert(ids.take(i as int + 1).drop_last() =~= ids.take(i as int));
                assert(names.take(i as int + 1).last() == names[i as int]);
                assert(names[i as int] == self.variables@[i as int].name@);
                assert(ids.take(i as int + 1)[names.take(i as int + 1).len() - 1] == ids[i as int]);
                assert(ids[i as int] == self.variables@[i as int].id as int);
                assert(out@ =~= header + comment_lines(
                    names.take(i as int + 1),
                    ids.take(i as int + 1),
                ));
            }
            i += 1;
        }
        proof {
            let names = self.registry().names;
            let ids = self.registry().ids;
            assert(names.take(names.len() as int) =~= names);
            assert(ids.take(ids.len() as int) =~= ids);
        }
        let ghost pre = out@;
        let mut ci: usize = 0;
        while ci < self.clauses.len()
            invariant
                ci <= self.clauses@.len(),
                out@ == pre + clause_lines(self.clause_seq().take(ci as int)),
            decreases self.clauses@.len() - ci,
        {
            let ghost cpre = out@;
            let mut j: usize = 0;
            while j < self.clauses[ci].len()
                invariant
                    ci < self.clauses@.len(),
                    j <= self.clauses@[ci as int]@.len(),
                    out@ == cpre + lits_text(self.clauses@[ci as int]@.take(j as int)),
                decreases self.clauses@[ci as int]@.len() - j,
            {
                let dtext = i32_to_string(self.clauses[ci][j]);
                out.append(dtext.as_str());
                out.append(" ");
                proof {
                    let c = self.clauses@[ci as int]@;
                    assert(c.take(j as int + 1).drop_last() =~= c.take(j as int));
                    assert(c.take(j as int + 1).last() == c[j as int]);
                    assert(out@ =~= cpre + lits_text(c.take(j as int + 1)));
                }
                j += 1;
            }
            out.append("0\n");
            proof {
                let c = self.clauses@[ci as int]@;
                assert(c.take(c.len() as int) =~= c);
                assert(self.clause_seq()[ci as int] == self.clauses@[ci as int].deep_view());
                assert(self.clauses@[ci as int].deep_view() =~= c);
                assert(self.clause_seq().take(ci as int + 1).drop_last() =~= self.clause_seq()
                    .take(ci as int));
                assert(self.clause_seq().take(ci as int + 1).last() == self.clause_seq()[ci as int]);
                assert(out@ =~= pre + clause_lines(self.clause_seq().take(ci as int + 1)));
            }
            ci += 1;
        }
        proof {
            assert(self.clause_seq().take(self.clause_seq().len() as int) =~= self.clause_seq());
            assert(out@ =~= spec_dimacs(self.registry(), self.clause_seq()));
        }
        out
    }

    /// Exactly one of `vars` true.
    pub fn exactly_one_true(&mut self, vars: &[Variable])
        requires
            old(self).wf(),
            forall|i: int| 0 <= i < vars@.len() ==> (#[trigger] vars@[i]).id >= 1,
        ensures
            final(self).wf(),
            final(self).registry() == old(self).registry(),
            final(self).clause_seq() == old(self).clause_seq() + at_least_result(
                1,
                var_ids(vars@),
            ) + at_most_clauses(1, var_ids(vars@)),
    {
        self.exactly_k_true(1, vars);
    }
}

/// The identifiers of `vars` as a vector of positive literals.
fn collect_ids(vars: &[Variable]) -> (r: Vec<i32>)
    ensures
        r@ == var_ids(vars@),
{
    let mut r: Vec<i32> = Vec::new();
    let mut i: usize = 0;
    while i < vars.len()
        invariant
            i <= vars@.len(),
            r@.len() == i,
            forall|m: int| 0 <= m < i ==> r@[m] == var_ids(vars@)[m],
        decreases vars@.len() - i,
    {
        let x = vars[i].positive();
        r.push(x);
        i += 1;
    }
    proof {
        assert(r@ =~= var_ids(vars@));
    }
    r
}

/// Every literal of every enumerated combination over positive identifiers is
/// itself positive.
proof fn lemma_combos_elements_positive(combos: Seq<Seq<i32>>, ids: Seq<i32>, k: nat)
    requires
        combos == spec_combinations(ids, k),
        forall|m: int| 0 <= m < ids.len() ==> ids[m] >= 1,
    ensures
        forall|a: int, b: int|
            0 <= a < combos.len() && 0 <= b < combos[a].len() ==> combos[a][b] >= 1,
{
    lemma_combinations_sound(ids, k);
    assert forall|a: int, b: int|
        0 <= a < combos.len() && 0 <= b < combos[a].len() implies combos[a][b] >= 1 by {
        let c = combos[a];
        lemma_subsequence_elements(c, ids);
        assert(c.contains(c[b]));
        assert(ids.contains(c[b]));
        let m = choose|m: int| 0 <= m < ids.len() && ids[m] == c[b];
        assert(ids[m] >= 1);
    }
}

/// Appending vectors of clauses concatenates their deep views.
proof fn lemma_deep_view_append(a: Vec<Vec<i32>>, b: Vec<Vec<i32>>, r: Vec<Vec<i32>>)
    requires
        r@ == a@ + b@,
    ensures
        r.deep_view() == a.deep_view() + b.deep_view(),
{
    assert forall|m: int|
        0 <= m < r@.len() implies #[trigger] r.deep_view()[m] == (a.deep_view() + b.deep_view())[m]
        by {
        assert(r.deep_view()[m] == r@[m].deep_view());
        if m < a@.len() {
            assert(r@[m] == a@[m]);
            assert(a.deep_view()[m] == a@[m].deep_view());
        } else {
            assert(r@[m] == b@[m - a@.len()]);
            assert(b.deep_view()[m - a@.len()] == b@[m - a@.len()].deep_view());
        }
    }
    assert(r.deep_view() =~= a.deep_view() + b.deep_view());
}

} // verus!

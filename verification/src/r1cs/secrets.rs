//! What a prover knows and overwrites when it is done.

use vstd::prelude::*;
use crate::group::Field;

verus! {

/// The element zero, at hand without any computation.
pub struct Zero<F: Field> {
    element: F,
}

impl<F: Field> Zero<F> {
    #[verifier::type_invariant]
    spec fn is_zero(self) -> bool {
        self.element.value() == 0
    }

    /// Computes zero.
    pub fn new() -> Self {
        Zero { element: F::zero() }
    }

    /// The element.
    pub fn get(&self) -> (r: F)
        ensures
            r.value() == 0,
        opens_invariants none
        no_unwind
    {
        proof {
            use_type_invariant(self);
        }
        self.element
    }
}

/// The values of the variables of a constraint system. They are overwritten
/// when they go out of scope.
pub struct Secrets<F: Field> {
    /// Assignments to the left inputs of the multipliers.
    pub a_L: Vec<F>,
    /// Assignments to the right inputs of the multipliers.
    pub a_R: Vec<F>,
    /// Assignments to the outputs of the multipliers.
    pub a_O: Vec<F>,
    /// Secret inputs.
    pub v: Vec<F>,
    /// The blinding factor of the commitment to the inputs.
    pub v_blinding: F,
    /// What they are overwritten with.
    pub zero: Zero<F>,
}

/// All entries are zero.
pub open spec fn all_zero<F: Field>(s: Seq<F>) -> bool {
    forall|i: int| 0 <= i < s.len() ==> (#[trigger] s[i]).value() == 0
}

/// `slice::get_mut` of std: a reference to the entry at `i`, or none if there
/// are no more than `i` entries.
#[verifier::external_body]
fn entry<T>(v: &mut Vec<T>, i: usize) -> (r: Option<&mut T>)
    ensures
        r is Some <==> i < old(v)@.len(),
        r matches Some(x) ==> {
            &&& *x == old(v)@[i as int]
            &&& final(v)@ == old(v)@.update(i as int, *final(x))
        },
        r is None ==> final(v)@ == old(v)@,
    opens_invariants none
    no_unwind
{
    v.get_mut(i)
}

/// Overwrites all entries with zero.
pub(crate) fn erase_all<F: Field>(v: &mut Vec<F>, zero: F)
    requires
        zero.value() == 0,
    ensures
        final(v)@.len() == old(v)@.len(),
        all_zero(final(v)@),
    opens_invariants none
    no_unwind
{
    let mut i: usize = 0;
    loop
        invariant
            i <= v@.len() == old(v)@.len(),
            zero.value() == 0,
            forall|j: int| 0 <= j < i ==> (#[trigger] v@[j]).value() == 0,
        decreases v@.len() - i,
    {
        match entry(v, i) {
            Some(element) => element.erase(zero),
            None => return,
        }
        assert(i < v.len());
        i += 1;
    }
}

impl<F: Field> Secrets<F> {
    /// No variable has a value yet.
    pub fn new() -> (r: Self)
        ensures
            r.a_L@.len() == 0,
            r.a_R@.len() == 0,
            r.a_O@.len() == 0,
            r.v@.len() == 0,
            r.v_blinding.value() == 0,
    {
        Secrets {
            a_L: Vec::new(),
            a_R: Vec::new(),
            a_O: Vec::new(),
            v: Vec::new(),
            v_blinding: F::zero(),
            zero: Zero::new(),
        }
    }

    /// As many values as in `before`, and all of them are zero.
    pub open spec fn erased_from(self, before: Self) -> bool {
        &&& self.a_L@.len() == before.a_L@.len()
        &&& self.a_R@.len() == before.a_R@.len()
        &&& self.a_O@.len() == before.a_O@.len()
        &&& self.v@.len() == before.v@.len()
        &&& all_zero(self.a_L@)
        &&& all_zero(self.a_R@)
        &&& all_zero(self.a_O@)
        &&& all_zero(self.v@)
        &&& self.v_blinding.value() == 0
    }

    /// Overwrites all values with zero.
    pub fn erase(&mut self)
        ensures
            final(self).erased_from(*old(self)),
        opens_invariants none
        no_unwind
    {
        let zero = self.zero.get();
        erase_all(&mut self.v, zero);
        self.v_blinding.erase(zero);
        erase_all(&mut self.a_L, zero);
        erase_all(&mut self.a_R, zero);
        erase_all(&mut self.a_O, zero);
    }
}

/// When a prover is done, nothing is left of what it knew but how much it was.
pub proof fn law_nothing_left<F: Field>(before: Secrets<F>, after: Secrets<F>)
    requires
        after.erased_from(before),
    ensures
        after.a_L@.len() == before.a_L@.len(),
        after.a_R@.len() == before.a_R@.len(),
        after.a_O@.len() == before.a_O@.len(),
        after.v@.len() == before.v@.len(),
        forall|i: int| 0 <= i < before.a_L@.len() ==> (#[trigger] after.a_L@[i]).value() == 0,
        forall|i: int| 0 <= i < before.a_R@.len() ==> (#[trigger] after.a_R@[i]).value() == 0,
        forall|i: int| 0 <= i < before.a_O@.len() ==> (#[trigger] after.a_O@[i]).value() == 0,
        forall|i: int| 0 <= i < before.v@.len() ==> (#[trigger] after.v@[i]).value() == 0,
        after.v_blinding.value() == 0,
{
}

impl<F: Field> Drop for Secrets<F> {
    /// Overwrites secrets with zeros when they go out of scope.
    fn drop(&mut self)
        ensures
            final(self).erased_from(*old(self)),
        opens_invariants none
        no_unwind
    {
        self.erase();
    }
}

} // verus!

//! Zero test, equality test, and insertion at an index that is itself a
//! wire.

use crate::circuit_builder::CircuitBuilder;
use crate::extension::{scalar_mul_add_trace, zero_extension_trace, ExtensionTarget};
use crate::error::CircuitError;
use crate::field::{add_mod, is_prime, lemma_prime_no_zero_divisors, mul_mod, sub_mod};
use crate::generator::{EqualityGenerator, WitnessGenerator};
use crate::model::GeneratorModel;
use crate::target::{in_field, precede, value_of, wire_range, Target};
use vstd::arithmetic::div_mod::*;
use vstd::prelude::*;

verus! {

/// One if `x` is zero, and zero otherwise.
pub open spec fn zero_flag(x: int) -> int {
    if x == 0 {
        1
    } else {
        0
    }
}

/// The wires a zero test of `x` adds from `base` on, under the assignment
/// `w`: a claimed inverse `m`, the flag `y`, and then `x * m + y`
/// constrained to one and `x * y` constrained to zero.
pub open spec fn zero_test_trace(w: Seq<u64>, x: Target, base: int, p: int) -> bool {
    &&& w[base + 2] == add_mod(value_of(w, x) * w[base], w[base + 1] as int, p)
    &&& w[base + 3] == 1
    &&& w[base + 2] == w[base + 3]
    &&& w[base + 4] == mul_mod(value_of(w, x), w[base + 1] as int, p)
    &&& w[base + 5] == 0
    &&& w[base + 4] == w[base + 5]
}

/// Over a prime field, a zero test's trace forces the flag: it is one if
/// `x` is zero and zero otherwise.
pub proof fn lemma_zero_test_sound(w: Seq<u64>, x: Target, base: int, p: int)
    requires
        is_prime(p),
        0 <= base,
        base + 6 <= w.len(),
        x.index < w.len(),
        in_field(w, p),
        zero_test_trace(w, x, base, p),
    ensures
        w[base + 1] == zero_flag(value_of(w, x)),
{
    let xv = value_of(w, x);
    let y = w[base + 1] as int;
    assert(w[x.index as int] < p);
    assert(w[base + 1] < p);
    lemma_small_mod(y as nat, p as nat);
    if xv == 0 {
        assert(xv * w[base] == 0) by (nonlinear_arith)
            requires
                xv == 0,
        ;
    } else {
        lemma_prime_no_zero_divisors(xv, y, p);
        lemma_small_mod(xv as nat, p as nat);
    }
}

impl CircuitBuilder {
    /// A wire that holds one if `x` holds zero, and zero otherwise.
    ///
    /// Two undriven wires are allocated, a claimed inverse `m` and the
    /// flag `y`, and constrained by `x * m + y = 1` and `x * y = 0`. A
    /// deferred computation that fills them from `x` is registered.
    pub fn is_zero(&mut self, x: Target) -> (r: Result<Target, CircuitError>)
        requires
            old(self)@.wf(),
            old(self)@.num_wires() + 6 <= usize::MAX,
        ensures
            match r {
                Ok(y) => {
                    let base = old(self)@.num_wires();
                    &&& old(self)@.has(x)
                    &&& y.index == base + 1
                    &&& final(self)@.wf()
                    &&& old(self)@.grows_to(final(self)@)
                    &&& final(self)@.public_inputs == old(self)@.public_inputs
                    &&& final(self)@.challenges == old(self)@.challenges
                    &&& final(self)@.generators == old(self)@.generators.push(
                        GeneratorModel::Equality {
                            x,
                            inverse: Target { index: base as usize },
                            is_zero: y,
                        },
                    )
                    &&& final(self)@.num_wires() == base + 6
                    &&& forall|w: Seq<u64>| #[trigger]
                        final(self)@.gates_hold(w) <==> old(self)@.gates_hold(w) && zero_test_trace(
                            w,
                            x,
                            base,
                            old(self)@.modulus,
                        )
                    &&& forall|w: Seq<u64>|
                        #[trigger] final(self)@.gates_hold(w) && w.len() >= final(self)@.num_wires()
                            && in_field(w, old(self)@.modulus) && is_prime(old(self)@.modulus)
                            ==> value_of(w, y) == zero_flag(value_of(w, x))
                },
                Err(e) => {
                    &&& e == CircuitError::UnknownWire
                    &&& !old(self)@.has(x)
                    &&& final(self)@ == old(self)@
                },
            },
    {
        if !self.is_allocated(x) {
            return Err(CircuitError::UnknownWire);
        }
        let ghost base = self@.num_wires();
        let ghost p = self@.modulus;
        let m = self.add_virtual_target();
        let y = self.add_virtual_target();
        let ghost allocated = self@;
        let generator = EqualityGenerator { x, inverse: m, is_zero: y };
        proof {
            let g = generator@;
            assert(g.outputs() =~= seq![m, y]);
            assert(g.dependencies() =~= seq![x]);
            assert(precede(g.dependencies(), g.outputs()));
            assert(allocated.all_inputs(g.outputs()));
            assert(allocated.generator_refusal(g) is None);
        }
        match self.add_simple_generator(WitnessGenerator::Equality(generator)) {
            Ok(()) => {},
            Err(e) => {
                return Err(e);
            },
        }
        let ghost registered = self@;
        proof {
            assert(registered.generators =~= old(self)@.generators.push(generator@));
            assert forall|t: int| 0 <= t < old(self)@.drivers.len() implies #[trigger] registered.drivers[t]
                == old(self)@.drivers[t] by {
                let target = Target { index: t as usize };
                if generator@.outputs().contains(target) {
                    let k = choose|k: int|
                        0 <= k < generator@.outputs().len() && generator@.outputs()[k] == target;
                }
                assert(allocated.drivers[t] == old(self)@.drivers[t]);
            }
            assert(old(self)@.drivers.is_prefix_of(registered.drivers));
            assert(old(self)@.grows_to(registered));
            assert(registered.gates == old(self)@.gates);
        }
        let product = self.mul_add(x, m, y);
        let one = self.one();
        self.connect(product, one);
        let xy = self.mul(x, y);
        let zero = self.zero();
        self.connect(xy, zero);
        proof {
            assert forall|w: Seq<u64>|
                #[trigger] self@.gates_hold(w) && w.len() >= self@.num_wires() && in_field(w, p)
                    && is_prime(p) implies value_of(w, y) == zero_flag(value_of(w, x)) by {
                lemma_zero_test_sound(w, x, base, p);
            }
        }
        Ok(y)
    }
}

/// The wires an equality test of `x` and `y` adds from `base` on, under
/// the assignment `w`: the difference, then a zero test of it.
pub open spec fn equal_test_trace(w: Seq<u64>, x: Target, y: Target, base: int, p: int) -> bool {
    &&& w[base] == sub_mod(value_of(w, x), value_of(w, y), p)
    &&& zero_test_trace(w, Target { index: base as usize }, base + 1, p)
}

/// One if `x` and `y` are equal, and zero otherwise.
pub open spec fn equal_flag(x: int, y: int) -> int {
    if x == y {
        1
    } else {
        0
    }
}

/// Two residues differ by a multiple of the modulus only if they are
/// equal.
pub proof fn lemma_residues_equal(x: int, y: int, p: int)
    requires
        0 <= x < p,
        0 <= y < p,
    ensures
        sub_mod(x, y, p) == 0 <==> x == y,
{
    if x >= y {
        lemma_small_mod((x - y) as nat, p as nat);
    } else {
        lemma_mod_add_multiples_vanish(x - y, p);
        lemma_small_mod((x - y + p) as nat, p as nat);
    }
}

impl CircuitBuilder {
    /// A wire that holds one if `x` and `y` hold the same value, and zero
    /// otherwise: a zero test of their difference.
    pub fn is_equal(&mut self, x: Target, y: Target) -> (r: Result<Target, CircuitError>)
        requires
            old(self)@.wf(),
            old(self)@.num_wires() + 7 <= usize::MAX,
        ensures
            match r {
                Ok(out) => {
                    let base = old(self)@.num_wires();
                    &&& old(self)@.has(x) && old(self)@.has(y)
                    &&& out.index == base + 2
                    &&& final(self)@.wf()
                    &&& old(self)@.grows_to(final(self)@)
                    &&& final(self)@.public_inputs == old(self)@.public_inputs
                    &&& final(self)@.challenges == old(self)@.challenges
                    &&& final(self)@.generators == old(self)@.generators.push(
                        GeneratorModel::Equality {
                            x: Target { index: base as usize },
                            inverse: Target { index: (base + 1) as usize },
                            is_zero: out,
                        },
                    )
                    &&& final(self)@.num_wires() == base + 7
                    &&& forall|w: Seq<u64>| #[trigger]
                        final(self)@.gates_hold(w) <==> old(self)@.gates_hold(w) && equal_test_trace(
                            w,
                            x,
                            y,
                            base,
                            old(self)@.modulus,
                        )
                    &&& forall|w: Seq<u64>|
                        #[trigger] final(self)@.gates_hold(w) && w.len() >= final(self)@.num_wires()
                            && in_field(w, old(self)@.modulus) && is_prime(old(self)@.modulus)
                            ==> value_of(w, out) == equal_flag(value_of(w, x), value_of(w, y))
                },
                Err(e) => {
                    &&& e == CircuitError::UnknownWire
                    &&& !(old(self)@.has(x) && old(self)@.has(y))
                    &&& final(self)@ == old(self)@
                },
            },
    {
        if !self.is_allocated(x) || !self.is_allocated(y) {
            return Err(CircuitError::UnknownWire);
        }
        let ghost base = self@.num_wires();
        let ghost p = self@.modulus;
        let difference = self.sub(x, y);
        let ghost middle = self@;
        let out = match self.is_zero(difference) {
            Ok(out) => out,
            Err(e) => {
                return Err(e);
            },
        };
        proof {
            assert(middle.generators == old(self)@.generators);
            assert forall|w: Seq<u64>|
                #[trigger] self@.gates_hold(w) && w.len() >= self@.num_wires() && in_field(w, p)
                    && is_prime(p) implies value_of(w, out) == equal_flag(
                value_of(w, x),
                value_of(w, y),
            ) by {
                assert(w[x.index as int] < p && w[y.index as int] < p);
                lemma_residues_equal(value_of(w, x), value_of(w, y), p);
            }
        }
        Ok(out)
    }
}

/// The number of wires one position of an insertion adds, for elements of
/// `degree` coordinates. The first position has nothing before it to
/// shift in.
pub open spec fn position_wires(first: bool, degree: int) -> int {
    if first {
        11 + 3 * degree
    } else {
        11 + 4 * degree
    }
}

/// Where, from the start of a position's wires, the running count of
/// insertions is updated.
pub open spec fn position_count_offset(first: bool, degree: int) -> int {
    if first {
        9 + 2 * degree
    } else {
        9 + 3 * degree
    }
}

/// The wires one position of an insertion adds from `base` on, under the
/// assignment `w`.
///
/// In order: the constant one; the constant `position`; a test of
/// whether `index` equals it; a zero element; the new element times the
/// test's flag; unless this is the first position, that plus the item
/// before times the count of insertions so far; the updated count; one
/// minus it; and the result, which adds the item at this position times
/// that.
pub open spec fn position_trace(
    w: Seq<u64>,
    index: Target,
    element: Seq<Target>,
    before: Seq<Target>,
    item: Seq<Target>,
    already: Target,
    position: int,
    first: bool,
    base: int,
    p: int,
) -> bool {
    let degree = element.len() as int;
    let here = Target { index: (base + 4) as usize };
    let count = base + position_count_offset(first, degree);
    &&& w[base] == 1
    &&& w[base + 1] as int == position % p
    &&& equal_test_trace(w, Target { index: (base + 1) as usize }, index, base + 2, p)
    &&& zero_extension_trace(w, base + 9, degree)
    &&& scalar_mul_add_trace(
        w,
        here,
        element,
        wire_range(base + 9, degree as nat),
        base + 9 + degree,
        p,
    )
    &&& !first ==> scalar_mul_add_trace(
        w,
        already,
        before,
        wire_range(base + 9 + degree, degree as nat),
        base + 9 + 2 * degree,
        p,
    )
    &&& w[count] == add_mod(value_of(w, already), value_of(w, here), p)
    &&& w[count + 1] == sub_mod(w[base] as int, w[count] as int, p)
    &&& scalar_mul_add_trace(
        w,
        Target { index: (count + 1) as usize },
        item,
        wire_range(count - degree, degree as nat),
        count + 2,
        p,
    )
}

impl CircuitBuilder {
    /// Emits one position of an insertion: the element that the result
    /// holds at `position`, and the updated count of insertions.
    fn insert_position<const D: usize>(
        &mut self,
        index: Target,
        element: ExtensionTarget<D>,
        before: Option<ExtensionTarget<D>>,
        item: ExtensionTarget<D>,
        already: Target,
        position: usize,
    ) -> (r: Result<(ExtensionTarget<D>, Target), CircuitError>)
        requires
            old(self)@.wf(),
            old(self)@.has(index),
            old(self)@.has(already),
            old(self)@.has_all(element@),
            old(self)@.has_all(item@),
            before is Some ==> old(self)@.has_all(before.unwrap()@),
            old(self)@.num_wires() + position_wires(before is None, D as int) <= usize::MAX,
        ensures
            r is Ok,
            final(self)@.wf(),
            old(self)@.grows_to(final(self)@),
            final(self)@.public_inputs == old(self)@.public_inputs,
            final(self)@.challenges == old(self)@.challenges,
            final(self)@.generators.len() == old(self)@.generators.len() + 1,
            final(self)@.num_wires() == old(self)@.num_wires() + position_wires(
                before is None,
                D as int,
            ),
            r.unwrap().1.index == old(self)@.num_wires() + position_count_offset(
                before is None,
                D as int,
            ),
            r.unwrap().0@ == wire_range(r.unwrap().1.index + 2, D as nat),
            forall|w: Seq<u64>| #[trigger]
                final(self)@.gates_hold(w) <==> old(self)@.gates_hold(w) && position_trace(
                    w,
                    index,
                    element@,
                    if before is Some {
                        before.unwrap()@
                    } else {
                        item@
                    },
                    item@,
                    already,
                    position as int,
                    before is None,
                    old(self)@.num_wires(),
                    old(self)@.modulus,
                ),
    {
        let ghost base = self@.num_wires();
        let ghost p = self@.modulus;
        let one = self.one();
        let cur_index = self.constant(position as u64);
        let ghost constants = self@;
        let insert_here = match self.is_equal(cur_index, index) {
            Ok(flag) => flag,
            Err(e) => {
                return Err(e);
            },
        };
        let ghost tested = self@;
        let zero_item = self.zero_extension::<D>();
        let ghost zeroed = self@;
        let mut new_item = self.scalar_mul_add_extension(insert_here, element, zero_item);
        let ghost placed = self@;
        match before {
            Some(previous) => {
                new_item = self.scalar_mul_add_extension(already, previous, new_item);
            },
            None => {},
        }
        let ghost shifted = self@;
        let count = self.add(already, insert_here);
        let not_already = self.sub(one, count);
        let ghost counted = self@;
        let result = self.scalar_mul_add_extension(not_already, item, new_item);
        proof {
            assert forall|w: Seq<u64>| #[trigger]
                self@.gates_hold(w) <==> old(self)@.gates_hold(w) && position_trace(
                    w,
                    index,
                    element@,
                    if before is Some {
                        before.unwrap()@
                    } else {
                        item@
                    },
                    item@,
                    already,
                    position as int,
                    before is None,
                    base,
                    p,
                ) by {
                assert(constants.gates_hold(w) <==> old(self)@.gates_hold(w) && w[base] == 1 && w[base
                    + 1] as int == position as int % p);
                assert(tested.gates_hold(w) <==> constants.gates_hold(w) && equal_test_trace(
                    w,
                    cur_index,
                    index,
                    base + 2,
                    p,
                ));
                assert(zeroed.gates_hold(w) <==> tested.gates_hold(w) && zero_extension_trace(
                    w,
                    base + 9,
                    D as int,
                ));
                assert(placed.gates_hold(w) <==> zeroed.gates_hold(w) && scalar_mul_add_trace(
                    w,
                    insert_here,
                    element@,
                    zero_item@,
                    base + 9 + D,
                    p,
                ));
                if before is Some {
                    assert(shifted.gates_hold(w) <==> placed.gates_hold(w) && scalar_mul_add_trace(
                        w,
                        already,
                        before.unwrap()@,
                        wire_range(base + 9 + D, D as nat),
                        base + 9 + 2 * D,
                        p,
                    ));
                } else {
                    assert(shifted == placed);
                }
                assert(counted.gates_hold(w) <==> shifted.gates_hold(w) && w[count.index as int]
                    == add_mod(value_of(w, already), value_of(w, insert_here), p) && w[count.index + 1]
                    == sub_mod(w[base] as int, w[count.index as int] as int, p));
                assert(self@.gates_hold(w) <==> counted.gates_hold(w) && scalar_mul_add_trace(
                    w,
                    not_already,
                    item@,
                    new_item@,
                    count.index + 2,
                    p,
                ));
            }
        }
        Ok((result, count))
    }
}

/// The handles of a list of extension elements.
pub open spec fn extension_views<const D: usize>(v: Seq<ExtensionTarget<D>>) -> Seq<Seq<Target>> {
    Seq::new(v.len(), |i: int| v[i]@)
}

/// The first wire of position `i` of an insertion that starts at `base`.
pub open spec fn position_base(base: int, i: int, degree: int) -> int {
    if i <= 0 {
        base + 1
    } else {
        base + 1 + (11 + 3 * degree) + (i - 1) * (11 + 4 * degree)
    }
}

/// The wire that holds the count of insertions before position `i`.
pub open spec fn count_wire(base: int, i: int, degree: int) -> Target {
    if i <= 0 {
        Target { index: base as usize }
    } else {
        Target {
            index: (position_base(base, i - 1, degree) + position_count_offset(i - 1 == 0, degree)) as usize,
        }
    }
}

/// The wires that hold the result of an insertion at position `i`.
pub open spec fn inserted_wires(base: int, i: int, degree: int) -> Seq<Target> {
    wire_range(
        position_base(base, i, degree) + position_count_offset(i == 0, degree) + 2,
        degree as nat,
    )
}

/// Position `i` of an insertion into `items` holds under `w`.
pub open spec fn insert_step(
    w: Seq<u64>,
    index: Target,
    element: Seq<Target>,
    items: Seq<Seq<Target>>,
    base: int,
    p: int,
    i: int,
) -> bool {
    let degree = element.len() as int;
    position_trace(
        w,
        index,
        element,
        if i == 0 {
            items[i]
        } else {
            items[i - 1]
        },
        items[i],
        count_wire(base, i, degree),
        i,
        i == 0,
        position_base(base, i, degree),
        p,
    )
}

/// The wires the first `upto` positions of an insertion add from `base`
/// on, under the assignment `w`: a count that starts at zero, then the
/// wires of each position.
pub open spec fn insert_trace(
    w: Seq<u64>,
    index: Target,
    element: Seq<Target>,
    items: Seq<Seq<Target>>,
    base: int,
    p: int,
    upto: int,
) -> bool {
    &&& w[base] == 0
    &&& forall|i: int| 0 <= i < upto ==> #[trigger] insert_step(w, index, element, items, base, p, i)
}

/// Each position starts where the one before it ends.
pub proof fn lemma_position_base_step(base: int, i: int, degree: int)
    requires
        0 <= i,
        0 <= degree,
    ensures
        position_base(base, i + 1, degree) == position_base(base, i, degree) + position_wires(
            i == 0,
            degree,
        ),
        position_base(base, i, degree) >= base + 1,
{
    let c = 11 + 4 * degree;
    if i >= 1 {
        assert(i * c == (i - 1) * c + c) by (nonlinear_arith);
        assert((i - 1) * c >= 0) by (nonlinear_arith)
            requires
                i >= 1,
                c >= 0,
        ;
    } else {
        assert(0 * c == 0) by (nonlinear_arith);
    }
}

/// Later positions start at higher wires.
pub proof fn lemma_position_base_monotonic(base: int, i: int, j: int, degree: int)
    requires
        0 <= i <= j,
        0 <= degree,
    ensures
        position_base(base, i, degree) <= position_base(base, j, degree),
    decreases j - i,
{
    if i < j {
        lemma_position_base_step(base, j - 1, degree);
        lemma_position_base_monotonic(base, i, j - 1, degree);
    }
}

/// One if `x` is below `bound`, and zero otherwise.
pub open spec fn below_flag(x: int, bound: int) -> int {
    if x < bound {
        1
    } else {
        0
    }
}

/// Coordinate `k` of the item that an insertion at the position `at` leaves
/// at position `i`: the new element at the position itself, the item
/// before after it, and the item in place before it.
pub open spec fn inserted_value(
    w: Seq<u64>,
    at: int,
    element: Seq<Target>,
    before: Seq<Target>,
    item: Seq<Target>,
    i: int,
    k: int,
) -> int {
    if at == i {
        value_of(w, element[k])
    } else if at < i {
        value_of(w, before[k])
    } else {
        value_of(w, item[k])
    }
}

/// A flag times a field element, plus a field element of which only one
/// is not zero, is the one that is not.
proof fn lemma_select(flag: int, x: int, rest: int, p: int)
    requires
        p >= 2,
        0 <= flag <= 1,
        0 <= x < p,
        0 <= rest < p,
        flag == 1 ==> rest == 0,
    ensures
        add_mod(flag * x, rest, p) == if flag == 1 {
            x
        } else {
            rest
        },
{
    if flag == 1 {
        assert(flag * x == x) by (nonlinear_arith)
            requires
                flag == 1,
        ;
        lemma_small_mod(x as nat, p as nat);
    } else {
        assert(flag * x == 0) by (nonlinear_arith)
            requires
                flag == 0,
        ;
        lemma_small_mod(rest as nat, p as nat);
    }
}

/// Over a prime field, one position's trace forces its outputs: given
/// that the count holds whether the index lies below this position, the
/// updated count holds whether it lies below the next, and the result
/// holds the inserted item.
pub proof fn lemma_position_sound(
    w: Seq<u64>,
    index: Target,
    element: Seq<Target>,
    before: Seq<Target>,
    item: Seq<Target>,
    already: Target,
    position: int,
    first: bool,
    base: int,
    p: int,
)
    requires
        is_prime(p),
        in_field(w, p),
        0 <= base,
        base + position_wires(first, element.len() as int) <= w.len(),
        w.len() <= usize::MAX,
        index.index < w.len(),
        already.index < w.len(),
        before.len() == element.len(),
        item.len() == element.len(),
        forall|k: int| 0 <= k < element.len() ==> (#[trigger] element[k]).index < w.len(),
        forall|k: int| 0 <= k < before.len() ==> (#[trigger] before[k]).index < w.len(),
        forall|k: int| 0 <= k < item.len() ==> (#[trigger] item[k]).index < w.len(),
        0 <= position < p,
        first ==> position == 0,
        value_of(w, already) == below_flag(value_of(w, index), position),
        position_trace(w, index, element, before, item, already, position, first, base, p),
    ensures
        w[base + position_count_offset(first, element.len() as int)] == below_flag(
            value_of(w, index),
            position + 1,
        ),
        ({
            let start = base + position_count_offset(first, element.len() as int) + 2;
            forall|k: int|
                0 <= k < element.len() ==> #[trigger] w[start + k] == inserted_value(
                    w,
                    value_of(w, index),
                    element,
                    before,
                    item,
                    position,
                    k,
                )
        }),
{
    let degree = element.len() as int;
    let at = value_of(w, index);
    let here = Target { index: (base + 4) as usize };
    let count = base + position_count_offset(first, degree);
    let seen = value_of(w, already);
    // the flag of the equality test
    let current = Target { index: (base + 1) as usize };
    let difference = Target { index: (base + 2) as usize };
    lemma_small_mod(position as nat, p as nat);
    assert(w[index.index as int] < p);
    lemma_zero_test_sound(w, difference, base + 3, p);
    lemma_residues_equal(position, at, p);
    let flag = value_of(w, here);
    assert(flag == equal_flag(position, at));
    // the count
    lemma_small_mod((seen + flag) as nat, p as nat);
    assert(w[count] == seen + flag);
    assert(w[count] == below_flag(at, position + 1));
    let counted = w[count] as int;
    if counted == 1 {
        lemma_small_mod(0, p as nat);
    } else {
        lemma_small_mod(1, p as nat);
    }
    let pass = w[count + 1] as int;
    assert(pass == 1 - counted);
    let start = count + 2;
    assert forall|k: int| 0 <= k < degree implies #[trigger] w[start + k] == inserted_value(
        w,
        at,
        element,
        before,
        item,
        position,
        k,
    ) by {
        let e = value_of(w, element[k]);
        let b = value_of(w, before[k]);
        let it = value_of(w, item[k]);
        assert(w[element[k].index as int] < p);
        assert(w[before[k].index as int] < p);
        assert(w[item[k].index as int] < p);
        // zero element
        assert(w[base + 9 + k] == 0);
        let zero_wire = wire_range(base + 9, degree as nat)[k];
        assert(value_of(w, zero_wire) == 0);
        // placed
        let placed = w[base + 9 + degree + k] as int;
        assert(placed == add_mod(flag * e, 0, p));
        lemma_select(flag, e, 0, p);
        let placed_wire = wire_range(base + 9 + degree, degree as nat)[k];
        assert(value_of(w, placed_wire) == placed);
        // shifted
        let shifted = w[count - degree + k] as int;
        if first {
            assert(shifted == placed);
        } else {
            assert(w[base + 9 + 2 * degree + k] == add_mod(seen * b, placed, p));
            lemma_select(seen, b, placed, p);
        }
        let shifted_wire = wire_range(count - degree, degree as nat)[k];
        assert(value_of(w, shifted_wire) == shifted);
        let pass_wire = Target { index: (count + 1) as usize };
        assert(value_of(w, pass_wire) == pass);
        assert(w[count + 2 + k] == add_mod(pass * it, shifted, p));
        lemma_select(pass, it, shifted, p);
    }
}

/// Under an insertion's trace, over a prime field with more elements
/// than the list has items, the count before each position holds whether
/// the index lies below it.
pub proof fn lemma_insert_counts(
    w: Seq<u64>,
    index: Target,
    element: Seq<Target>,
    items: Seq<Seq<Target>>,
    base: int,
    p: int,
    i: int,
)
    requires
        is_prime(p),
        in_field(w, p),
        0 <= base,
        position_base(base, items.len() as int, element.len() as int) <= w.len(),
        w.len() <= usize::MAX,
        index.index < base,
        forall|k: int| 0 <= k < element.len() ==> (#[trigger] element[k]).index < base,
        forall|j: int, k: int|
            0 <= j < items.len() && 0 <= k < element.len() ==> (#[trigger] items[j][k]).index < base,
        forall|j: int| 0 <= j < items.len() ==> (#[trigger] items[j]).len() == element.len(),
        items.len() <= p,
        insert_trace(w, index, element, items, base, p, items.len() as int),
        0 <= i <= items.len(),
    ensures
        value_of(w, count_wire(base, i, element.len() as int)) == below_flag(value_of(w, index), i),
        i < items.len() ==> forall|k: int|
            0 <= k < element.len() ==> #[trigger] value_of(
                w,
                inserted_wires(base, i, element.len() as int)[k],
            ) == inserted_value(
                w,
                value_of(w, index),
                element,
                if i == 0 {
                    items[i]
                } else {
                    items[i - 1]
                },
                items[i],
                i,
                k,
            ),
    decreases i,
{
    let degree = element.len() as int;
    if i > 0 {
        lemma_insert_counts(w, index, element, items, base, p, i - 1);
        lemma_insert_position(w, index, element, items, base, p, i - 1);
    }
    if i < items.len() {
        lemma_insert_position(w, index, element, items, base, p, i);
        lemma_position_base_step(base, i, degree);
        lemma_position_base_monotonic(base, i + 1, items.len() as int, degree);
        let start = position_base(base, i, degree) + position_count_offset(i == 0, degree) + 2;
        assert forall|k: int| 0 <= k < degree implies #[trigger] value_of(
            w,
            inserted_wires(base, i, degree)[k],
        ) == inserted_value(
            w,
            value_of(w, index),
            element,
            if i == 0 {
                items[i]
            } else {
                items[i - 1]
            },
            items[i],
            i,
            k,
        ) by {
            assert(w[start + k] == inserted_value(
                w,
                value_of(w, index),
                element,
                if i == 0 {
                    items[i]
                } else {
                    items[i - 1]
                },
                items[i],
                i,
                k,
            ));
        }
    }
}

/// The outputs of position `i` of an insertion, given the count before
/// it.
proof fn lemma_insert_position(
    w: Seq<u64>,
    index: Target,
    element: Seq<Target>,
    items: Seq<Seq<Target>>,
    base: int,
    p: int,
    i: int,
)
    requires
        is_prime(p),
        in_field(w, p),
        0 <= base,
        position_base(base, items.len() as int, element.len() as int) <= w.len(),
        w.len() <= usize::MAX,
        index.index < base,
        forall|k: int| 0 <= k < element.len() ==> (#[trigger] element[k]).index < base,
        forall|j: int, k: int|
            0 <= j < items.len() && 0 <= k < element.len() ==> (#[trigger] items[j][k]).index < base,
        forall|j: int| 0 <= j < items.len() ==> (#[trigger] items[j]).len() == element.len(),
        items.len() <= p,
        insert_trace(w, index, element, items, base, p, items.len() as int),
        0 <= i < items.len(),
        value_of(w, count_wire(base, i, element.len() as int)) == below_flag(value_of(w, index), i),
    ensures
        value_of(w, count_wire(base, i + 1, element.len() as int)) == below_flag(
            value_of(w, index),
            i + 1,
        ),
        ({
            let start = position_base(base, i, element.len() as int) + position_count_offset(
                i == 0,
                element.len() as int,
            ) + 2;
            forall|k: int|
                0 <= k < element.len() ==> #[trigger] w[start + k] == inserted_value(
                    w,
                    value_of(w, index),
                    element,
                    if i == 0 {
                        items[i]
                    } else {
                        items[i - 1]
                    },
                    items[i],
                    i,
                    k,
                )
        }),
{
    let degree = element.len() as int;
    let start = position_base(base, i, degree);
    let before = if i == 0 {
        items[i]
    } else {
        items[i - 1]
    };
    lemma_position_base_step(base, i, degree);
    lemma_position_base_monotonic(base, i + 1, items.len() as int, degree);
    assert(insert_step(w, index, element, items, base, p, i));
    let already = count_wire(base, i, degree);
    if i > 0 {
        lemma_position_base_step(base, i - 1, degree);
    }
    assert(already.index < start);
    assert forall|k: int| 0 <= k < before.len() implies (#[trigger] before[k]).index < w.len() by {
        if i == 0 {
            assert(items[i][k].index < base);
        } else {
            assert(items[i - 1][k].index < base);
        }
    }
    assert forall|k: int| 0 <= k < items[i].len() implies (#[trigger] items[i][k]).index < w.len() by {
        assert(items[i][k].index < base);
    }
    lemma_position_sound(w, index, element, before, items[i], already, i, i == 0, start, p);
}

impl CircuitBuilder {
    /// Whether every coordinate of every element of `v` is allocated.
    fn all_extensions_allocated<const D: usize>(&self, v: &Vec<ExtensionTarget<D>>) -> (r: bool)
        ensures
            r == forall|i: int| 0 <= i < v@.len() ==> self@.has_all(#[trigger] v@[i]@),
    {
        let mut i: usize = 0;
        while i < v.len()
            invariant
                i <= v.len(),
                forall|k: int| 0 <= k < i ==> self@.has_all(#[trigger] v@[k]@),
            decreases v.len() - i,
        {
            if !self.all_allocated(v[i].0.as_slice()) {
                assert(!self@.has_all(v@[i as int]@));
                return false;
            }
            i = i + 1;
        }
        true
    }

    /// Inserts `element` into the list `v` at the position that the wire
    /// `index` holds, and returns a list of the length of `v`: the items
    /// before the position, the element, and the items after it shifted
    /// by one, the last of them dropped. If `index` holds no position of
    /// the list, the result holds the items of `v` unchanged.
    ///
    /// `index` is not range-checked.
    pub fn insert<const D: usize>(
        &mut self,
        index: Target,
        element: ExtensionTarget<D>,
        v: Vec<ExtensionTarget<D>>,
    ) -> (r: Result<Vec<ExtensionTarget<D>>, CircuitError>)
        requires
            old(self)@.wf(),
            position_base(old(self)@.num_wires(), v@.len() as int, D as int) <= usize::MAX,
        ensures
            match r {
                Ok(out) => {
                    let base = old(self)@.num_wires();
                    &&& old(self)@.has(index)
                    &&& old(self)@.has_all(element@)
                    &&& forall|i: int| 0 <= i < v@.len() ==> old(self)@.has_all(#[trigger] v@[i]@)
                    &&& out@.len() == v@.len()
                    &&& forall|i: int|
                        0 <= i < out@.len() ==> (#[trigger] out@[i])@ == inserted_wires(
                            base,
                            i,
                            D as int,
                        )
                    &&& final(self)@.wf()
                    &&& old(self)@.grows_to(final(self)@)
                    &&& final(self)@.public_inputs == old(self)@.public_inputs
                    &&& final(self)@.challenges == old(self)@.challenges
                    &&& final(self)@.generators.len() == old(self)@.generators.len() + v@.len()
                    &&& final(self)@.num_wires() == position_base(base, v@.len() as int, D as int)
                    &&& forall|w: Seq<u64>| #[trigger]
                        final(self)@.gates_hold(w) <==> old(self)@.gates_hold(w) && insert_trace(
                            w,
                            index,
                            element@,
                            extension_views(v@),
                            base,
                            old(self)@.modulus,
                            v@.len() as int,
                        )
                    &&& forall|w: Seq<u64>|
                        #[trigger] final(self)@.gates_hold(w) && final(self)@.num_wires() <= w.len()
                            <= usize::MAX && in_field(w, old(self)@.modulus) && is_prime(
                            old(self)@.modulus,
                        ) && v@.len() <= old(self)@.modulus ==> forall|i: int, k: int|
                            0 <= i < v@.len() && 0 <= k < D ==> value_of(w, #[trigger] out@[i]@[k])
                                == inserted_value(
                                w,
                                value_of(w, index),
                                element@,
                                if i == 0 {
                                    v@[i]@
                                } else {
                                    v@[i - 1]@
                                },
                                v@[i]@,
                                i,
                                k,
                            )
                },
                Err(e) => {
                    &&& e == CircuitError::UnknownWire
                    &&& !(old(self)@.has(index) && old(self)@.has_all(element@) && forall|i: int|
                        0 <= i < v@.len() ==> old(self)@.has_all(#[trigger] v@[i]@))
                    &&& final(self)@ == old(self)@
                },
            },
    {
        if !self.is_allocated(index) || !self.all_allocated(element.0.as_slice())
            || !self.all_extensions_allocated(&v) {
            return Err(CircuitError::UnknownWire);
        }
        let ghost base = self@.num_wires();
        let ghost p = self@.modulus;
        let ghost items = extension_views(v@);
        let n = v.len();
        proof {
            lemma_position_base_monotonic(base, 0, n as int, D as int);
        }
        let mut already_inserted = self.zero();
        let mut new_list: Vec<ExtensionTarget<D>> = Vec::new();
        let mut i: usize = 0;
        while i < n
            invariant
                i <= n,
                n == v@.len(),
                base == old(self)@.num_wires(),
                p == old(self)@.modulus,
                items == extension_views(v@),
                element@.len() == D,
                position_base(base, n as int, D as int) <= usize::MAX,
                old(self)@.has(index),
                old(self)@.has_all(element@),
                forall|k: int| 0 <= k < v@.len() ==> old(self)@.has_all(#[trigger] v@[k]@),
                self@.wf(),
                old(self)@.grows_to(self@),
                self@.public_inputs == old(self)@.public_inputs,
                self@.challenges == old(self)@.challenges,
                self@.generators.len() == old(self)@.generators.len() + i,
                self@.num_wires() == position_base(base, i as int, D as int),
                already_inserted == count_wire(base, i as int, D as int),
                self@.has(already_inserted),
                new_list@.len() == i,
                forall|k: int| 0 <= k < i ==> (#[trigger] new_list@[k])@ == inserted_wires(base, k, D as int),
                forall|w: Seq<u64>| #[trigger]
                    self@.gates_hold(w) <==> old(self)@.gates_hold(w) && insert_trace(
                        w,
                        index,
                        element@,
                        items,
                        base,
                        p,
                        i as int,
                    ),
            decreases n - i,
        {
            let ghost before = self@;
            proof {
                lemma_position_base_step(base, i as int, D as int);
                lemma_position_base_monotonic(base, i + 1, n as int, D as int);
                assert(old(self)@.has_all(v@[i as int]@));
                if i > 0 {
                    assert(old(self)@.has_all(v@[i - 1]@));
                }
            }
            let previous = if i > 0 {
                Some(v[i - 1])
            } else {
                None
            };
            let (new_item, count) = match self.insert_position(
                index,
                element,
                previous,
                v[i],
                already_inserted,
                i,
            ) {
                Ok(pair) => pair,
                Err(e) => {
                    return Err(e);
                },
            };
            new_list.push(new_item);
            proof {
                assert(items[i as int] == v@[i as int]@);
                if i > 0 {
                    assert(items[i - 1] == v@[i - 1]@);
                }
                assert forall|w: Seq<u64>| #[trigger]
                    self@.gates_hold(w) <==> old(self)@.gates_hold(w) && insert_trace(
                        w,
                        index,
                        element@,
                        items,
                        base,
                        p,
                        i + 1,
                    ) by {
                    assert(self@.gates_hold(w) <==> before.gates_hold(w) && insert_step(
                        w,
                        index,
                        element@,
                        items,
                        base,
                        p,
                        i as int,
                    ));
                    if insert_trace(w, index, element@, items, base, p, i + 1) {
                        assert(insert_step(w, index, element@, items, base, p, i as int));
                    }
                }
            }
            already_inserted = count;
            i = i + 1;
        }
        proof {
            assert forall|w: Seq<u64>|
                #[trigger] self@.gates_hold(w) && self@.num_wires() <= w.len() <= usize::MAX
                    && in_field(w, p) && is_prime(p) && v@.len() <= p implies forall|i: int, k: int|
                0 <= i < v@.len() && 0 <= k < D ==> value_of(w, #[trigger] new_list@[i]@[k])
                    == inserted_value(
                    w,
                    value_of(w, index),
                    element@,
                    if i == 0 {
                        v@[i]@
                    } else {
                        v@[i - 1]@
                    },
                    v@[i]@,
                    i,
                    k,
                ) by {
                assert forall|j: int, k: int|
                    0 <= j < items.len() && 0 <= k < element@.len() implies (
                #[trigger] items[j][k]).index < base by {
                    assert(old(self)@.has_all(v@[j]@));
                }
                assert forall|i: int, k: int| 0 <= i < v@.len() && 0 <= k < D implies value_of(
                    w,
                    #[trigger] new_list@[i]@[k],
                ) == inserted_value(
                    w,
                    value_of(w, index),
                    element@,
                    if i == 0 {
                        v@[i]@
                    } else {
                        v@[i - 1]@
                    },
                    v@[i]@,
                    i,
                    k,
                ) by {
                    lemma_insert_counts(w, index, element@, items, base, p, i);
                    assert(new_list@[i]@ == inserted_wires(base, i, D as int));
                    assert(items[i] == v@[i]@);
                    if i > 0 {
                        assert(items[i - 1] == v@[i - 1]@);
                    }
                }
            }
        }
        Ok(new_list)
    }
}

} // verus!

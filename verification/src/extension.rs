//! Wires that together hold one element of an extension field.

use crate::circuit_builder::CircuitBuilder;
use crate::field::add_mod;
use crate::target::{value_of, wire_range, Target};
use vstd::array::*;
use vstd::prelude::*;

verus! {

/// A handle to an element of the degree-`D` extension of the field: one
/// wire for each of its `D` coordinates.
#[derive(Clone, Copy, Debug)]
pub struct ExtensionTarget<const D: usize>(pub [Target; D]);

impl<const D: usize> View for ExtensionTarget<D> {
    type V = Seq<Target>;

    open spec fn view(&self) -> Seq<Target> {
        self.0@
    }
}

/// The `count` wires from `base` on all hold zero under `w`.
pub open spec fn zero_extension_trace(w: Seq<u64>, base: int, count: int) -> bool {
    forall|k: int| 0 <= k < count ==> #[trigger] w[base + k] == 0
}

/// The wires from `base` on hold, coordinate by coordinate, the value of
/// `scalar` times `a` plus `b`, under `w`.
pub open spec fn scalar_mul_add_trace(
    w: Seq<u64>,
    scalar: Target,
    a: Seq<Target>,
    b: Seq<Target>,
    base: int,
    p: int,
) -> bool {
    forall|k: int|
        0 <= k < a.len() ==> #[trigger] w[base + k] == add_mod(
            value_of(w, scalar) * value_of(w, a[k]),
            value_of(w, b[k]),
            p,
        )
}

/// The wires from `base` on hold the constants `values`, reduced modulo
/// `p`, under `w`.
pub open spec fn constant_extension_trace(w: Seq<u64>, values: Seq<u64>, base: int, p: int) -> bool {
    forall|k: int| 0 <= k < values.len() ==> #[trigger] w[base + k] as int == values[k] as int % p
}

/// The extension elements `a` and `b` hold the same value under `w`.
pub open spec fn same_extension(w: Seq<u64>, a: Seq<Target>, b: Seq<Target>) -> bool {
    forall|k: int| 0 <= k < a.len() ==> value_of(w, #[trigger] a[k]) == value_of(w, b[k])
}

impl CircuitBuilder {
    /// An extension element that holds the constant whose coordinates are
    /// `values`.
    pub fn constant_extension<const D: usize>(&mut self, values: [u64; D]) -> (r: ExtensionTarget<D>)
        requires
            old(self)@.wf(),
            old(self)@.num_wires() + D <= usize::MAX,
        ensures
            r@ == wire_range(old(self)@.num_wires(), D as nat),
            final(self)@.wf(),
            old(self)@.adds_gates_only(final(self)@),
            final(self)@.num_wires() == old(self)@.num_wires() + D,
            forall|w: Seq<u64>| #[trigger]
                final(self)@.gates_hold(w) <==> old(self)@.gates_hold(w) && constant_extension_trace(
                    w,
                    values@,
                    old(self)@.num_wires(),
                    old(self)@.modulus,
                ),
    {
        let ghost base = self@.num_wires();
        let ghost p = self@.modulus;
        let mut limbs: [Target; D] = array_fill_for_copy_types(Target { index: 0 });
        let mut k: usize = 0;
        while k < D
            invariant
                k <= D,
                base == old(self)@.num_wires(),
                p == old(self)@.modulus,
                base + D <= usize::MAX,
                self@.wf(),
                old(self)@.adds_gates_only(self@),
                self@.num_wires() == base + k,
                forall|j: int| 0 <= j < k ==> #[trigger] limbs@[j] == (Target { index: (base + j) as usize }),
                forall|w: Seq<u64>| #[trigger]
                    self@.gates_hold(w) <==> old(self)@.gates_hold(w) && constant_extension_trace(
                        w,
                        values@.take(k as int),
                        base,
                        p,
                    ),
            decreases D - k,
        {
            let ghost before = self@;
            let limb = self.constant(values[k]);
            limbs[k] = limb;
            proof {
                let done = values@.take(k as int);
                let more = values@.take(k + 1);
                assert forall|w: Seq<u64>| #[trigger]
                    self@.gates_hold(w) <==> old(self)@.gates_hold(w) && constant_extension_trace(
                        w,
                        more,
                        base,
                        p,
                    ) by {
                    assert(self@.gates_hold(w) <==> before.gates_hold(w) && w[base + k] as int
                        == values@[k as int] as int % p);
                    if constant_extension_trace(w, more, base, p) {
                        assert(w[base + k] as int == more[k as int] as int % p);
                        assert forall|j: int| 0 <= j < done.len() implies #[trigger] w[base + j] as int
                            == done[j] as int % p by {
                            assert(w[base + j] as int == more[j] as int % p);
                        }
                    }
                    if constant_extension_trace(w, done, base, p) && w[base + k] as int
                        == values@[k as int] as int % p {
                        assert forall|j: int| 0 <= j < more.len() implies #[trigger] w[base + j] as int
                            == more[j] as int % p by {
                            if j < k {
                                assert(w[base + j] as int == done[j] as int % p);
                            }
                        }
                    }
                }
            }
            k = k + 1;
        }
        let r = ExtensionTarget(limbs);
        proof {
            assert(values@.take(D as int) =~= values@);
            assert(r@ =~= wire_range(base, D as nat));
        }
        r
    }

    /// The extension element `scalar * a + b`, where `scalar` is a wire of
    /// the base field: one multiply-add for each coordinate.
    pub fn scalar_mul_add_extension<const D: usize>(
        &mut self,
        scalar: Target,
        a: ExtensionTarget<D>,
        b: ExtensionTarget<D>,
    ) -> (r: ExtensionTarget<D>)
        requires
            old(self)@.wf(),
            old(self)@.has(scalar),
            old(self)@.has_all(a@),
            old(self)@.has_all(b@),
            old(self)@.num_wires() + D <= usize::MAX,
        ensures
            r@ == wire_range(old(self)@.num_wires(), D as nat),
            final(self)@.wf(),
            old(self)@.adds_gates_only(final(self)@),
            final(self)@.num_wires() == old(self)@.num_wires() + D,
            forall|w: Seq<u64>| #[trigger]
                final(self)@.gates_hold(w) <==> old(self)@.gates_hold(w) && scalar_mul_add_trace(
                    w,
                    scalar,
                    a@,
                    b@,
                    old(self)@.num_wires(),
                    old(self)@.modulus,
                ),
    {
        let ghost base = self@.num_wires();
        let ghost p = self@.modulus;
        let mut limbs: [Target; D] = array_fill_for_copy_types(Target { index: 0 });
        let mut k: usize = 0;
        while k < D
            invariant
                k <= D,
                base == old(self)@.num_wires(),
                p == old(self)@.modulus,
                base + D <= usize::MAX,
                old(self)@.has(scalar),
                old(self)@.has_all(a@),
                old(self)@.has_all(b@),
                a@.len() == D,
                b@.len() == D,
                self@.wf(),
                old(self)@.adds_gates_only(self@),
                self@.num_wires() == base + k,
                forall|j: int| 0 <= j < k ==> #[trigger] limbs@[j] == (Target { index: (base + j) as usize }),
                forall|w: Seq<u64>| #[trigger]
                    self@.gates_hold(w) <==> old(self)@.gates_hold(w) && scalar_mul_add_trace(
                        w,
                        scalar,
                        a@.take(k as int),
                        b@,
                        base,
                        p,
                    ),
            decreases D - k,
        {
            let ghost before = self@;
            assert(a@[k as int].index < old(self)@.num_wires());
            assert(b@[k as int].index < old(self)@.num_wires());
            let limb = self.mul_add(scalar, a.0[k], b.0[k]);
            limbs[k] = limb;
            proof {
                let done = a@.take(k as int);
                let more = a@.take(k + 1);
                assert forall|w: Seq<u64>| #[trigger]
                    self@.gates_hold(w) <==> old(self)@.gates_hold(w) && scalar_mul_add_trace(
                        w,
                        scalar,
                        more,
                        b@,
                        base,
                        p,
                    ) by {
                    let step = w[base + k] == add_mod(
                        value_of(w, scalar) * value_of(w, a@[k as int]),
                        value_of(w, b@[k as int]),
                        p,
                    );
                    assert(self@.gates_hold(w) <==> before.gates_hold(w) && step);
                    if scalar_mul_add_trace(w, scalar, more, b@, base, p) {
                        assert(w[base + k] == add_mod(
                            value_of(w, scalar) * value_of(w, more[k as int]),
                            value_of(w, b@[k as int]),
                            p,
                        ));
                        assert forall|j: int| 0 <= j < done.len() implies #[trigger] w[base + j]
                            == add_mod(
                            value_of(w, scalar) * value_of(w, done[j]),
                            value_of(w, b@[j]),
                            p,
                        ) by {
                            assert(w[base + j] == add_mod(
                                value_of(w, scalar) * value_of(w, more[j]),
                                value_of(w, b@[j]),
                                p,
                            ));
                        }
                    }
                    if scalar_mul_add_trace(w, scalar, done, b@, base, p) && step {
                        assert forall|j: int| 0 <= j < more.len() implies #[trigger] w[base + j]
                            == add_mod(
                            value_of(w, scalar) * value_of(w, more[j]),
                            value_of(w, b@[j]),
                            p,
                        ) by {
                            if j < k {
                                assert(w[base + j] == add_mod(
                                    value_of(w, scalar) * value_of(w, done[j]),
                                    value_of(w, b@[j]),
                                    p,
                                ));
                            }
                        }
                    }
                }
            }
            k = k + 1;
        }
        let r = ExtensionTarget(limbs);
        proof {
            assert(a@.take(D as int) =~= a@);
            assert(r@ =~= wire_range(base, D as nat));
        }
        r
    }

    /// Constrains the extension elements `a` and `b` to hold the same
    /// value, coordinate by coordinate.
    pub fn connect_extension<const D: usize>(&mut self, a: ExtensionTarget<D>, b: ExtensionTarget<D>)
        requires
            old(self)@.wf(),
            old(self)@.has_all(a@),
            old(self)@.has_all(b@),
        ensures
            final(self)@.wf(),
            old(self)@.adds_gates_only(final(self)@),
            final(self)@.num_wires() == old(self)@.num_wires(),
            forall|w: Seq<u64>| #[trigger]
                final(self)@.gates_hold(w) <==> old(self)@.gates_hold(w) && same_extension(w, a@, b@),
    {
        let mut k: usize = 0;
        while k < D
            invariant
                k <= D,
                old(self)@.has_all(a@),
                old(self)@.has_all(b@),
                a@.len() == D,
                b@.len() == D,
                self@.wf(),
                old(self)@.adds_gates_only(self@),
                self@.num_wires() == old(self)@.num_wires(),
                forall|w: Seq<u64>| #[trigger]
                    self@.gates_hold(w) <==> old(self)@.gates_hold(w) && same_extension(
                        w,
                        a@.take(k as int),
                        b@,
                    ),
            decreases D - k,
        {
            let ghost before = self@;
            assert(a@[k as int].index < old(self)@.num_wires());
            assert(b@[k as int].index < old(self)@.num_wires());
            self.connect(a.0[k], b.0[k]);
            proof {
                let done = a@.take(k as int);
                let more = a@.take(k + 1);
                assert forall|w: Seq<u64>| #[trigger]
                    self@.gates_hold(w) <==> old(self)@.gates_hold(w) && same_extension(
                        w,
                        more,
                        b@,
                    ) by {
                    let step = value_of(w, a@[k as int]) == value_of(w, b@[k as int]);
                    assert(self@.gates_hold(w) <==> before.gates_hold(w) && step);
                    if same_extension(w, more, b@) {
                        assert(value_of(w, more[k as int]) == value_of(w, b@[k as int]));
                        assert forall|j: int| 0 <= j < done.len() implies value_of(
                            w,
                            #[trigger] done[j],
                        ) == value_of(w, b@[j]) by {
                            assert(value_of(w, more[j]) == value_of(w, b@[j]));
                        }
                    }
                    if same_extension(w, done, b@) && step {
                        assert forall|j: int| 0 <= j < more.len() implies value_of(
                            w,
                            #[trigger] more[j],
                        ) == value_of(w, b@[j]) by {
                            if j < k {
                                assert(value_of(w, done[j]) == value_of(w, b@[j]));
                            }
                        }
                    }
                }
            }
            k = k + 1;
        }
        proof {
            assert(a@.take(D as int) =~= a@);
        }
    }

    /// An extension element that holds zero.
    pub fn zero_extension<const D: usize>(&mut self) -> (r: ExtensionTarget<D>)
        requires
            old(self)@.wf(),
            old(self)@.num_wires() + D <= usize::MAX,
        ensures
            r@ == wire_range(old(self)@.num_wires(), D as nat),
            final(self)@.wf(),
            old(self)@.adds_gates_only(final(self)@),
            final(self)@.num_wires() == old(self)@.num_wires() + D,
            forall|w: Seq<u64>| #[trigger]
                final(self)@.gates_hold(w) <==> old(self)@.gates_hold(w) && zero_extension_trace(
                    w,
                    old(self)@.num_wires(),
                    D as int,
                ),
    {
        let ghost base = self@.num_wires();
        let mut limbs: [Target; D] = array_fill_for_copy_types(Target { index: 0 });
        let mut k: usize = 0;
        while k < D
            invariant
                k <= D,
                base == old(self)@.num_wires(),
                base + D <= usize::MAX,
                self@.wf(),
                old(self)@.adds_gates_only(self@),
                self@.num_wires() == base + k,
                forall|j: int| 0 <= j < k ==> #[trigger] limbs@[j] == (Target { index: (base + j) as usize }),
                forall|w: Seq<u64>| #[trigger]
                    self@.gates_hold(w) <==> old(self)@.gates_hold(w) && zero_extension_trace(
                        w,
                        base,
                        k as int,
                    ),
            decreases D - k,
        {
            let ghost before = self@;
            let zero = self.zero();
            limbs[k] = zero;
            proof {
                assert forall|w: Seq<u64>| #[trigger]
                    self@.gates_hold(w) <==> old(self)@.gates_hold(w) && zero_extension_trace(
                        w,
                        base,
                        k + 1,
                    ) by {
                    assert(self@.gates_hold(w) <==> before.gates_hold(w) && w[base + k] == 0);
                    if zero_extension_trace(w, base, k + 1) {
                        assert(w[base + k] == 0);
                    }
                }
            }
            k = k + 1;
        }
        let r = ExtensionTarget(limbs);
        assert(r@ =~= wire_range(base, D as nat));
        r
    }
}

} // verus!

//! The histogram paths that the kernel benchmark checks and times.

use crate::gpu::ellpack::EllpackLayout;
use vstd::prelude::*;

verus! {

/// One histogram path on one kind of matrix.
#[derive(Clone, Copy, Debug)]
pub struct HistCase {
    pub name: &'static str,
    pub layout: EllpackLayout,
    /// How many of ten entries are missing.
    pub missing: u32,
    /// Accumulate in global memory.
    pub force_global: bool,
    /// Whether 64-bit atomics are used; what the device has where this is not said.
    pub atomics: Option<bool>,
}

/// The cases that are checked, on a device with or without 64-bit atomics.
pub open spec fn checked(native: bool) -> Seq<HistCase> {
    let always = seq![
        HistCase { name: "hist dense/shared", layout: EllpackLayout::Dense, missing: 0, force_global: false, atomics: None },
        HistCase { name: "hist dense/global/u32-split", layout: EllpackLayout::Dense, missing: 0, force_global: true, atomics: Some(false) },
        HistCase { name: "hist dense-compressed/shared", layout: EllpackLayout::DenseCompressed, missing: 3, force_global: false, atomics: None },
        HistCase { name: "hist sparse/shared", layout: EllpackLayout::Sparse, missing: 5, force_global: false, atomics: None },
        HistCase { name: "hist sparse/global/u32-split", layout: EllpackLayout::Sparse, missing: 5, force_global: true, atomics: Some(false) },
    ];
    if native {
        always + seq![
            HistCase { name: "hist dense/global/i64-native", layout: EllpackLayout::Dense, missing: 0, force_global: true, atomics: Some(true) },
            HistCase { name: "hist sparse/global/i64-native", layout: EllpackLayout::Sparse, missing: 5, force_global: true, atomics: Some(true) },
            HistCase { name: "hist sparse/shared/i64-flush", layout: EllpackLayout::Sparse, missing: 5, force_global: false, atomics: Some(true) },
        ]
    } else {
        always
    }
}

/// The cases that are timed, on a device with or without 64-bit atomics.
pub open spec fn timed(native: bool) -> Seq<HistCase> {
    let dense = seq![
        HistCase { name: "dense/shared", layout: EllpackLayout::Dense, missing: 0, force_global: false, atomics: None },
        HistCase { name: "dense/global/u32", layout: EllpackLayout::Dense, missing: 0, force_global: true, atomics: Some(false) },
    ];
    let sparse = seq![
        HistCase { name: "sparse0.5/shared", layout: EllpackLayout::Sparse, missing: 5, force_global: false, atomics: None },
        HistCase { name: "sparse0.5/global/u32", layout: EllpackLayout::Sparse, missing: 5, force_global: true, atomics: Some(false) },
    ];
    if native {
        dense.push(
            HistCase { name: "dense/global/i64", layout: EllpackLayout::Dense, missing: 0, force_global: true, atomics: Some(true) },
        ) + sparse.push(
            HistCase { name: "sparse0.5/global/i64", layout: EllpackLayout::Sparse, missing: 5, force_global: true, atomics: Some(true) },
        )
    } else {
        dense + sparse
    }
}

/// The cases that a device can run: global memory is accumulated in by atomics.
pub open spec fn runnable(cases: Seq<HistCase>, atomics: bool) -> Seq<HistCase> {
    cases.filter(|c: HistCase| atomics || !c.force_global)
}

/// Leave out the cases that a device cannot run.
fn keep_runnable(cases: &Vec<HistCase>, atomics: bool) -> (kept: Vec<HistCase>)
    ensures
        kept@ == runnable(cases@, atomics),
{
    let ghost keep = |c: HistCase| atomics || !c.force_global;
    let mut kept: Vec<HistCase> = Vec::new();
    let mut i: usize = 0;
    assert(cases@.subrange(0, 0).filter(keep) =~= Seq::empty()) by {
        reveal(Seq::filter);
    }
    while i < cases.len()
        invariant
            i <= cases.len(),
            keep == |c: HistCase| atomics || !c.force_global,
            kept@ == cases@.subrange(0, i as int).filter(keep),
        decreases cases.len() - i,
    {
        let case: HistCase = cases[i];
        proof {
            reveal(Seq::filter);
            assert(cases@.subrange(0, i + 1).drop_last() =~= cases@.subrange(0, i as int));
            assert(cases@.subrange(0, i + 1).last() == case);
        }
        if atomics || !case.force_global {
            kept.push(case);
        }
        i += 1;
    }
    assert(cases@.subrange(0, cases.len() as int) =~= cases@);
    kept
}

/// The histogram paths to check against sums taken on the host.
pub fn oracle_cases(native: bool, atomics: bool) -> (cases: Vec<HistCase>)
    ensures
        cases@ == runnable(checked(native), atomics),
{
    let mut cases: Vec<HistCase> = vec![
        HistCase { name: "hist dense/shared", layout: EllpackLayout::Dense, missing: 0, force_global: false, atomics: None },
        HistCase { name: "hist dense/global/u32-split", layout: EllpackLayout::Dense, missing: 0, force_global: true, atomics: Some(false) },
        HistCase { name: "hist dense-compressed/shared", layout: EllpackLayout::DenseCompressed, missing: 3, force_global: false, atomics: None },
        HistCase { name: "hist sparse/shared", layout: EllpackLayout::Sparse, missing: 5, force_global: false, atomics: None },
        HistCase { name: "hist sparse/global/u32-split", layout: EllpackLayout::Sparse, missing: 5, force_global: true, atomics: Some(false) },
    ];
    if native {
        cases.push(HistCase { name: "hist dense/global/i64-native", layout: EllpackLayout::Dense, missing: 0, force_global: true, atomics: Some(true) });
        cases.push(HistCase { name: "hist sparse/global/i64-native", layout: EllpackLayout::Sparse, missing: 5, force_global: true, atomics: Some(true) });
        cases.push(HistCase { name: "hist sparse/shared/i64-flush", layout: EllpackLayout::Sparse, missing: 5, force_global: false, atomics: Some(true) });
    }
    assert(cases@ =~= checked(native));
    keep_runnable(&cases, atomics)
}

/// The histogram paths to time.
pub fn speed_cases(native: bool, atomics: bool) -> (cases: Vec<HistCase>)
    ensures
        cases@ == runnable(timed(native), atomics),
{
    let mut cases: Vec<HistCase> = vec![
        HistCase { name: "dense/shared", layout: EllpackLayout::Dense, missing: 0, force_global: false, atomics: None },
        HistCase { name: "dense/global/u32", layout: EllpackLayout::Dense, missing: 0, force_global: true, atomics: Some(false) },
        HistCase { name: "sparse0.5/shared", layout: EllpackLayout::Sparse, missing: 5, force_global: false, atomics: None },
        HistCase { name: "sparse0.5/global/u32", layout: EllpackLayout::Sparse, missing: 5, force_global: true, atomics: Some(false) },
    ];
    if native {
        cases.insert(2, HistCase { name: "dense/global/i64", layout: EllpackLayout::Dense, missing: 0, force_global: true, atomics: Some(true) });
        cases.push(HistCase { name: "sparse0.5/global/i64", layout: EllpackLayout::Sparse, missing: 5, force_global: true, atomics: Some(true) });
    }
    assert(cases@ =~= timed(native));
    keep_runnable(&cases, atomics)
}

/// A device without atomics still checks every layout, in shared memory.
pub proof fn lemma_every_layout_checked(native: bool, atomics: bool, layout: EllpackLayout)
    ensures
        exists|i: int|
            0 <= i < runnable(checked(native), atomics).len() && (#[trigger] runnable(checked(native), atomics)[i]).layout == layout,
{
    broadcast use vstd::seq_lib::group_filter_ensures;

    let keep = |c: HistCase| atomics || !c.force_global;
    let all = checked(native);
    let k: int = match layout {
        EllpackLayout::Dense => 0,
        EllpackLayout::DenseCompressed => 2,
        EllpackLayout::Sparse => 3,
    };
    assert(all[k].layout == layout && keep(all[k]));
    let kept = runnable(all, atomics);
    assert(kept == all.filter(keep));
    assert(kept.contains(all[k]));
    let i = choose|i: int| 0 <= i < kept.len() && kept[i] == all[k];
    assert(kept[i].layout == layout);
}

/// A case is run exactly where it does not take the atomics that the runtime lacks.
pub proof fn lemma_runnable(cases: Seq<HistCase>, atomics: bool, c: HistCase)
    ensures
        runnable(cases, atomics).contains(c) <==> cases.contains(c) && (atomics || !c.force_global),
    decreases cases.len(),
{
    reveal(Seq::filter);
    let kept = runnable(cases, atomics);
    if cases.len() > 0 {
        let rest = cases.drop_last();
        lemma_runnable(rest, atomics, c);
        let before = runnable(rest, atomics);
        if before.contains(c) {
            let i = choose|i: int| 0 <= i < before.len() && before[i] == c;
            assert(kept[i] == c);
        }
        if rest.contains(c) {
            let i = choose|i: int| 0 <= i < rest.len() && rest[i] == c;
            assert(cases[i] == c);
        }
        if kept.contains(c) {
            let i = choose|i: int| 0 <= i < kept.len() && kept[i] == c;
            if i < before.len() {
                assert(before[i] == c);
            } else {
                assert(cases[cases.len() - 1] == c);
            }
        }
        if cases.contains(c) && (atomics || !c.force_global) {
            let i = choose|i: int| 0 <= i < cases.len() && cases[i] == c;
            if i < cases.len() - 1 {
                assert(rest[i] == c);
            } else {
                assert(kept[before.len() as int] == c);
            }
        }
    }
}

/// A case that forces global memory chooses its atomics, native ones are only chosen where the
/// runtime has them, and only the dense layout is without missing values.
pub proof fn lemma_cases_consistent(native: bool, i: int)
    requires
        0 <= i < checked(native).len(),
    ensures
        checked(native)[i].force_global ==> checked(native)[i].atomics is Some,
        checked(native)[i].atomics == Some(true) ==> native,
        checked(native)[i].layout == EllpackLayout::Dense <==> checked(native)[i].missing == 0,
{
}

} // verus!

use vstd::prelude::*;

verus! {

/// The triple that one altitude contributes to a profile: its own
/// (temperature, pressure, density) where it has one, else `missing` thrice.
pub open spec fn entry_or<T>(sample: Option<(T, T, T)>, missing: T) -> (T, T, T) {
    match sample {
        Some(v) => v,
        None => (missing, missing, missing),
    }
}

/// Some altitude of the column has no result.
pub open spec fn any_missing<T>(samples: Seq<Option<(T, T, T)>>) -> bool {
    exists|i: int| 0 <= i < samples.len() && (#[trigger] samples[i]) is None
}

/// Gathers the results of a column of altitudes, one optional
/// (temperature, pressure, density) triple per altitude, into three columns
/// of the same length, with `missing` standing in where an altitude had no
/// result, and tells whether any altitude had none.
pub fn collect_profile<T: Copy>(samples: &Vec<Option<(T, T, T)>>, missing: T) -> (r: (
    Vec<T>,
    Vec<T>,
    Vec<T>,
    bool,
))
    ensures
        r.0.len() == samples.len(),
        r.1.len() == samples.len(),
        r.2.len() == samples.len(),
        forall|i: int| 0 <= i < samples.len() ==> #[trigger] r.0@[i] == entry_or(samples@[i], missing).0,
        forall|i: int| 0 <= i < samples.len() ==> #[trigger] r.1@[i] == entry_or(samples@[i], missing).1,
        forall|i: int| 0 <= i < samples.len() ==> #[trigger] r.2@[i] == entry_or(samples@[i], missing).2,
        forall|i: int|
            0 <= i < samples.len() && samples@[i] is None ==> #[trigger] r.0@[i] == missing
                && r.1@[i] == missing && r.2@[i] == missing,
        forall|i: int|
            0 <= i < samples.len() ==> (samples@[i] matches Some(v) ==> #[trigger] r.0@[i] == v.0
                && r.1@[i] == v.1 && r.2@[i] == v.2),
        r.3 == any_missing(samples@),
        r.3 <==> exists|i: int| 0 <= i < samples.len() && (#[trigger] samples@[i]) is None,
        !r.3 ==> forall|i: int| 0 <= i < samples.len() ==> (#[trigger] samples@[i]) is Some,
{
    let mut t: Vec<T> = Vec::new();
    let mut p: Vec<T> = Vec::new();
    let mut rho: Vec<T> = Vec::new();
    let mut error = false;
    let mut i: usize = 0;
    while i < samples.len()
        invariant
            i <= samples.len(),
            t.len() == i,
            p.len() == i,
            rho.len() == i,
            forall|k: int| 0 <= k < i ==> #[trigger] t@[k] == entry_or(samples@[k], missing).0,
            forall|k: int| 0 <= k < i ==> #[trigger] p@[k] == entry_or(samples@[k], missing).1,
            forall|k: int| 0 <= k < i ==> #[trigger] rho@[k] == entry_or(samples@[k], missing).2,
            error == exists|k: int| 0 <= k < i && (#[trigger] samples@[k]) is None,
        decreases samples.len() - i,
    {
        match samples[i] {
            Some((ti, pi, rhoi)) => {
                t.push(ti);
                p.push(pi);
                rho.push(rhoi);
            },
            None => {
                t.push(missing);
                p.push(missing);
                rho.push(missing);
                error = true;
            },
        }
        i = i + 1;
    }
    (t, p, rho, error)
}

/// An altitude without a result, wherever it stands in the column (first,
/// last or between), makes the column count as having a missing result.
pub proof fn lemma_missing_entry_is_flagged<T>(samples: Seq<Option<(T, T, T)>>, i: int)
    requires
        0 <= i < samples.len(),
        samples[i] is None,
    ensures
        any_missing(samples),
{
    assert(samples[i] is None);
}

/// A column counts as having a missing result only where some altitude of
/// it has none; a column in which every altitude has a result counts as
/// complete.
pub proof fn lemma_flag_needs_missing_entry<T>(samples: Seq<Option<(T, T, T)>>)
    ensures
        any_missing(samples) ==> exists|i: int| 0 <= i < samples.len() && (#[trigger] samples[i]) is None,
        (forall|i: int| 0 <= i < samples.len() ==> (#[trigger] samples[i]) is Some) ==> !any_missing(samples),
{
}

/// An altitude contributes its own triple where it has a result and the fill
/// value thrice where it has none.
pub proof fn lemma_entry_of_sample<T>(sample: Option<(T, T, T)>, missing: T)
    ensures
        sample matches Some(v) ==> entry_or(sample, missing) == v,
        sample is None ==> entry_or(sample, missing) == (missing, missing, missing),
{
}

} // verus!

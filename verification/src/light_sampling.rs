//! What one round of sampling decides: how a sample enters the history,
//! when the history is resized, and how many dips it then shows.
//!
//! Whether one sample dips below the one before it is for the caller to
//! say; the counting is done here for any such predicate.

use crate::circular_buffer::{clones_of, latest, pushed, pushed_tail, retained, CircularBuffer};
use vstd::prelude::*;

verus! {

/// Whether a capacity request calls for a resize of a buffer of `capacity`
/// slots: zero stands for no request, and the capacity that the buffer has
/// already needs no work.
pub open spec fn calls_for_resize(requested: int, capacity: int) -> bool {
    requested != 0 && requested != capacity
}

/// Takes one sample into the history, then gives the history the requested
/// number of slots where the request calls for it.
pub fn record_sample<T: Clone>(
    history: &mut CircularBuffer<T>,
    sample: T,
    requested_capacity: usize,
)
    requires
        old(history).well_formed(),
    ensures
        final(history).well_formed(),
        calls_for_resize(requested_capacity as int, old(history).spec_capacity()) ==> {
            &&& final(history).spec_capacity() == requested_capacity
            &&& final(history).spec_tail() == 0
            &&& clones_of(
                retained(
                    pushed(old(history)@, old(history).spec_capacity(), sample),
                    requested_capacity as int,
                ),
                final(history)@,
            )
        },
        !calls_for_resize(requested_capacity as int, old(history).spec_capacity()) ==> {
            &&& final(history).spec_capacity() == old(history).spec_capacity()
            &&& final(history).spec_tail() == pushed_tail(
                old(history).spec_tail(),
                old(history)@.len() as int,
                old(history).spec_capacity(),
            )
            &&& final(history)@ == pushed(
                old(history)@,
                old(history).spec_capacity(),
                sample,
            )
        },
{
    history.push(sample);
    if history.capacity() != requested_capacity && requested_capacity > 0 {
        let _ = history.resize(requested_capacity);
    }
}

/// The number of neighbouring pairs of `window`, an older value and the one
/// that came next, that `dip` holds of.
pub open spec fn dips_in<T>(window: Seq<T>, dip: spec_fn(T, T) -> bool) -> nat
    decreases window.len(),
{
    if window.len() < 2 {
        0
    } else {
        dips_in(window.drop_first(), dip) + if dip(window[0], window[1]) {
            1nat
        } else {
            0nat
        }
    }
}

/// Whether `dip` is the predicate that `is_dip` computes: whatever
/// `is_dip` answers for a pair is what `dip` says of it.
pub open spec fn computes<T, F: Fn(&T, &T) -> bool>(
    is_dip: F,
    dip: spec_fn(T, T) -> bool,
) -> bool {
    forall|prev: T, next: T, answer: bool| #[trigger]
        is_dip.ensures((&prev, &next), answer) ==> answer == dip(prev, next)
}

/// Whether `dips` is the number of dips that `is_dip` finds in `window`: it
/// is the number of pairs that the predicate which `is_dip` computes holds
/// of, and there is none in a window without a pair.
pub open spec fn counts_dips<T, F: Fn(&T, &T) -> bool>(
    is_dip: F,
    window: Seq<T>,
    dips: usize,
) -> bool {
    &&& forall|dip: spec_fn(T, T) -> bool|
        computes(is_dip, dip) ==> dips == #[trigger] dips_in(window, dip)
    &&& window.len() < 2 ==> dips == 0
    &&& window.len() >= 2 ==> dips <= window.len() - 1
}

/// Counts the dips in a window of samples, oldest first: the neighbouring
/// pairs that `is_dip`, given the older sample and then the newer one,
/// says yes to.
pub fn count_dips<T, F: Fn(&T, &T) -> bool>(window: &Vec<T>, is_dip: &F) -> (dips: usize)
    requires
        forall|i: int|
            #![trigger window@[i]]
            0 < i < window@.len() ==> is_dip.requires((&window@[i - 1], &window@[i])),
    ensures
        counts_dips(*is_dip, window@, dips),
{
    if window.len() == 0 {
        return 0;
    }
    let mut index: usize = window.len() - 1;
    let mut session_dips: usize = 0;
    proof {
        assert(window@.subrange(index as int, window@.len() as int).len() == 1);
    }
    while index != 0
        invariant
            index < window@.len() <= usize::MAX,
            session_dips <= window@.len() - 1 - index,
            forall|dip: spec_fn(T, T) -> bool|
                computes(*is_dip, dip) ==> session_dips == #[trigger] dips_in(
                    window@.subrange(index as int, window@.len() as int),
                    dip,
                ),
            forall|i: int|
                #![trigger window@[i]]
                0 < i < window@.len() ==> is_dip.requires((&window@[i - 1], &window@[i])),
        decreases index,
    {
        let ghost rest = window@.subrange(index as int, window@.len() as int);
        let ghost more = window@.subrange(index - 1, window@.len() as int);
        let ghost counted = session_dips;
        proof {
            assert(more.drop_first() =~= rest);
            assert(is_dip.requires((&window@[index - 1], &window@[index as int])));
        }
        let answer = is_dip(&window[index - 1], &window[index]);
        if answer {
            session_dips += 1;
        }
        index -= 1;
        proof {
            assert forall|dip: spec_fn(T, T) -> bool| computes(*is_dip, dip) implies session_dips
                == #[trigger] dips_in(more, dip) by {
                assert(counted == dips_in(rest, dip));
                assert(answer == dip(more[0], more[1]));
            }
        }
    }
    proof {
        assert(window@.subrange(0, window@.len() as int) =~= window@);
    }
    session_dips
}

/// The dip count to publish for the history as it stands: that of all it
/// holds, counted on clones of the samples, and none while it holds nothing.
pub fn window_dips<T: Clone, F: Fn(&T, &T) -> bool>(
    history: &CircularBuffer<T>,
    is_dip: &F,
) -> (dips: Option<usize>)
    requires
        history.well_formed(),
        forall|prev: T, next: T| #[trigger] is_dip.requires((&prev, &next)),
    ensures
        match dips {
            Some(count) => history@.len() > 0 && exists|window: Seq<T>| #[trigger]
                clones_of(history@, window) && counts_dips(*is_dip, window, count),
            None => history@.len() == 0,
        },
{
    if history.is_empty() {
        return None;
    }
    match history.get_latest_samples(history.size()) {
        Ok(window) => {
            proof {
                assert(latest(history@, history@.len() as int) =~= history@);
            }
            let dips = count_dips(&window, is_dip);
            proof {
                assert(clones_of(history@, window@) && counts_dips(*is_dip, window@, dips));
            }
            Some(dips)
        },
        Err(_) => None,
    }
}

} // verus!

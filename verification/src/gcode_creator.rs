//! How many tool paths may be computed at once: a budget of worker threads
//! that a tool path takes one of before it starts and gives back when done.
use vstd::prelude::*;

verus! {

/// The fewest threads that may be allowed.
pub const MIN_THREADS: u32 = 4;

/// The threads allowed at first.
pub const DEFAULT_THREADS: u32 = 8;

/// The number of worker threads allowed and the number in use.
#[derive(Clone, Copy, Debug)]
pub struct ThreadBudget {
    total_threads: u32,
    threads_in_use: u32,
}

impl ThreadBudget {
    /// The number of threads allowed.
    pub closed spec fn spec_total(&self) -> u32 {
        self.total_threads
    }

    /// The number of threads in use.
    pub closed spec fn spec_in_use(&self) -> u32 {
        self.threads_in_use
    }

    /// Takes a thread when one is free; returns whether it did.
    pub fn try_take_thread(&mut self) -> (r: bool)
        ensures
            r == (old(self).spec_in_use() < old(self).spec_total()),
            final(self).spec_total() == old(self).spec_total(),
            final(self).spec_in_use() == if r {
                (old(self).spec_in_use() + 1) as u32
            } else {
                old(self).spec_in_use()
            },
    {
        if self.threads_in_use < self.total_threads {
            self.threads_in_use = self.threads_in_use + 1;
            true
        } else {
            false
        }
    }

    /// Gives back a thread taken before.
    pub fn release_thread(&mut self)
        requires
            old(self).spec_in_use() > 0,
        ensures
            final(self).spec_total() == old(self).spec_total(),
            final(self).spec_in_use() == old(self).spec_in_use() - 1,
    {
        self.threads_in_use = self.threads_in_use - 1;
    }
}

impl Default for ThreadBudget {
    fn default() -> (r: Self)
        ensures
            r.spec_total() == DEFAULT_THREADS,
            r.spec_in_use() == 0,
    {
        ThreadBudget { total_threads: DEFAULT_THREADS, threads_in_use: 0 }
    }
}

/// Allows `thread_count` threads, and never fewer than `MIN_THREADS`.
pub fn set_threads(budget: &mut ThreadBudget, thread_count: u32)
    ensures
        final(budget).spec_total() == if thread_count < MIN_THREADS {
            MIN_THREADS
        } else {
            thread_count
        },
        final(budget).spec_in_use() == old(budget).spec_in_use(),
{
    let mut thread_count = thread_count;
    if thread_count < MIN_THREADS {
        thread_count = MIN_THREADS;
    }
    budget.total_threads = thread_count;
}

/// The number of threads in use.
pub fn try_get_threads(budget: &ThreadBudget) -> (r: u32)
    ensures
        r == budget.spec_in_use(),
{
    budget.threads_in_use
}

/// How many times the base wait to wait before asking for a thread again,
/// after `times_looped` refusals: once for the first two, then doubling up to
/// 256 times.
pub fn backoff_multiplier(times_looped: u32) -> (r: u32)
    ensures
        r == if times_looped < 3 {
            1
        } else if times_looped > 8 {
            256
        } else {
            vstd::arithmetic::power2::pow2(times_looped as nat)
        },
{
    if times_looped < 3 {
        1
    } else {
        let shift: u32 = if times_looped > 8 {
            8
        } else {
            times_looped
        };
        let r: u32 = 1u32 << shift;
        proof {
            vstd::arithmetic::power2::lemma2_to64();
            assert(shift == 3 || shift == 4 || shift == 5 || shift == 6 || shift == 7 || shift == 8);
            vstd::bits::lemma_u32_shl_is_mul(1, shift);
        }
        r
    }
}

/// A thread taken and given back leaves the budget as it was; a thread is
/// taken only while fewer than the allowed number are in use, so taking never
/// goes past the allowance.
pub proof fn lemma_take_release(b: ThreadBudget, taken: ThreadBudget, released: ThreadBudget, r: bool)
    requires
        r == (b.spec_in_use() < b.spec_total()),
        taken.spec_total() == b.spec_total(),
        taken.spec_in_use() == if r {
            (b.spec_in_use() + 1) as u32
        } else {
            b.spec_in_use()
        },
        r ==> released.spec_total() == taken.spec_total() && released.spec_in_use() == taken.spec_in_use() - 1,
    ensures
        r ==> released.spec_in_use() == b.spec_in_use() && released.spec_total() == b.spec_total(),
        b.spec_in_use() <= b.spec_total() ==> taken.spec_in_use() <= taken.spec_total(),
        r ==> taken.spec_in_use() <= taken.spec_total(),
{
}

/// Whether the bit goes down at a cell of a broad cut: the walk allows it
/// there, the crossings below the cell have the cutting parity (odd when
/// cutting on odd counts, even otherwise), and no outline runs through the
/// bit's square at the cell.
pub fn bit_goes_down(can_be_down: bool, crossings: usize, do_cut_on_odd: bool, crosses_outline: bool) -> (r: bool)
    ensures
        r == (can_be_down && ((crossings % 2 == 1) == do_cut_on_odd) && !crosses_outline),
{
    can_be_down && ((crossings % 2 == 1) == do_cut_on_odd) && !crosses_outline
}

/// What a broad cut does at the next cell of its walk.
#[derive(Clone, Copy, Debug, PartialEq, Eq, Structural)]
pub enum CutAction {
    /// Move above the cell and plunge: no cut was running.
    Plunge,
    /// Carry the running cut on to the cell.
    Continue,
    /// Finish the running cut at its last cell and lift the bit.
    Lift,
    /// Stay up: no cut was running and none starts.
    StayUp,
}

/// The action of a broad cut at a cell where the bit goes down or not,
/// depending on whether a cut is running.
pub fn next_cut_action(goes_down: bool, cutting: bool) -> (r: CutAction)
    ensures
        r == if goes_down {
            if cutting {
                CutAction::Continue
            } else {
                CutAction::Plunge
            }
        } else if cutting {
            CutAction::Lift
        } else {
            CutAction::StayUp
        },
{
    if goes_down {
        if cutting {
            CutAction::Continue
        } else {
            CutAction::Plunge
        }
    } else if cutting {
        CutAction::Lift
    } else {
        CutAction::StayUp
    }
}

} // verus!

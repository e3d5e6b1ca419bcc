use vstd::prelude::*;

verus! {

/// The quiet window used when none is configured, in milliseconds.
pub const DEFAULT_DEBOUNCE_MS: u64 = 500;

/// Config for the auto-reload feature.
pub struct AutoReloadConfig {
    /// Duration, in milliseconds, to debounce file change events.
    pub debounce_ms: u64,
}

impl Default for AutoReloadConfig {
    fn default() -> (r: Self)
        ensures
            r.debounce_ms == DEFAULT_DEBOUNCE_MS,
    {
        AutoReloadConfig { debounce_ms: DEFAULT_DEBOUNCE_MS }
    }
}

/// Collapses bursts of change events: a trigger is accepted only once the quiet
/// window has passed since the last accepted one.
pub struct Debouncer {
    window_ms: u64,
    last_accepted: Option<u64>,
}

/// Whether a trigger at `now` passes, given the time of the last accepted one.
pub open spec fn passes(last_accepted: Option<u64>, window_ms: u64, now: u64) -> bool {
    match last_accepted {
        None => true,
        Some(last) => now >= last + window_ms,
    }
}

impl Debouncer {
    pub closed spec fn spec_window(&self) -> u64 {
        self.window_ms
    }

    pub closed spec fn spec_last(&self) -> Option<u64> {
        self.last_accepted
    }

    /// A debouncer that has accepted nothing yet.
    pub fn new(window_ms: u64) -> (r: Debouncer)
        ensures
            r.spec_window() == window_ms,
            r.spec_last() is None,
    {
        Debouncer { window_ms, last_accepted: None }
    }

    /// A debouncer with the configured window.
    pub fn from_config(config: &AutoReloadConfig) -> (r: Debouncer)
        ensures
            r.spec_window() == config.debounce_ms,
            r.spec_last() is None,
    {
        Debouncer::new(config.debounce_ms)
    }

    /// Offers a trigger at time `now_ms`. An accepted trigger restarts the
    /// window; a discarded one leaves it as it was.
    pub fn offer(&mut self, now_ms: u64) -> (r: bool)
        ensures
            r == passes(old(self).spec_last(), old(self).spec_window(), now_ms),
            final(self).spec_window() == old(self).spec_window(),
            final(self).spec_last() == (if r {
                Some(now_ms)
            } else {
                old(self).spec_last()
            }),
    {
        let accept = match self.last_accepted {
            None => true,
            Some(last) => now_ms >= last && now_ms - last >= self.window_ms,
        };
        if accept {
            self.last_accepted = Some(now_ms);
        }
        accept
    }
}

/// Within one window after an accepted trigger, every further trigger is
/// discarded, however many arrive.
pub proof fn lemma_burst_collapses(last: u64, window_ms: u64, later: u64)
    requires
        last <= later < last + window_ms,
    ensures
        !passes(Some(last), window_ms, later),
{
}

} // verus!

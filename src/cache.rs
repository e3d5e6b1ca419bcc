use vstd::prelude::*;

verus! {

/// What a cached result depends on. Two runs of a task agree on their
/// fingerprint exactly when none of these factors changed in between.
pub struct Fingerprint {
    /// The resolved command text.
    pub command: String,
    /// The directory the command runs in.
    pub working_directory: String,
    /// Digest of the contents and modification times of the declared inputs.
    pub inputs_digest: u64,
    /// The environment the task runs in.
    pub environment: String,
    /// Digest of the lock-file content.
    pub lock_file_digest: u64,
}

/// The factors of a fingerprint as plain values.
pub type FingerprintView = (Seq<char>, Seq<char>, u64, Seq<char>, u64);

impl View for Fingerprint {
    type V = FingerprintView;

    open spec fn view(&self) -> FingerprintView {
        (
            self.command@,
            self.working_directory@,
            self.inputs_digest,
            self.environment@,
            self.lock_file_digest,
        )
    }
}

/// The stored fingerprint of a cache record, as plain values.
pub open spec fn record_view(stored: Option<Fingerprint>) -> Option<FingerprintView> {
    match stored {
        Some(f) => Some(f@),
        None => None,
    }
}

/// A task may be skipped exactly when its stored fingerprint equals the fresh one.
pub open spec fn may_skip(stored: Option<FingerprintView>, fresh: FingerprintView) -> bool {
    stored == Some(fresh)
}

/// The record after a run: replaced by the run's fingerprint after a real run
/// that exited with code zero, untouched otherwise.
pub open spec fn record_after(
    stored: Option<FingerprintView>,
    token: FingerprintView,
    exit_code: i32,
    dry_run: bool,
) -> Option<FingerprintView> {
    if exit_code == 0 && !dry_run {
        Some(token)
    } else {
        stored
    }
}

/// The outcome of consulting the cache.
pub enum CanSkip {
    /// The stored fingerprint matches: the task need not run.
    Yes,
    /// The task must run; the fingerprint is saved once it succeeds.
    No(Fingerprint),
}

impl Fingerprint {
    pub fn new(
        command: String,
        working_directory: String,
        inputs_digest: u64,
        environment: String,
        lock_file_digest: u64,
    ) -> (r: Fingerprint)
        ensures
            r@ == (command@, working_directory@, inputs_digest, environment@, lock_file_digest),
    {
        Fingerprint { command, working_directory, inputs_digest, environment, lock_file_digest }
    }

    /// Whether two fingerprints agree on every factor.
    pub fn same_as(&self, other: &Fingerprint) -> (r: bool)
        ensures
            r == (self@ == other@),
    {
        self.inputs_digest == other.inputs_digest && self.lock_file_digest == other.lock_file_digest
            && self.command == other.command && self.working_directory == other.working_directory
            && self.environment == other.environment
    }
}

/// Compares the stored fingerprint, if any, with the fresh one.
pub fn can_skip(stored: &Option<Fingerprint>, fresh: Fingerprint) -> (r: CanSkip)
    ensures
        match r {
            CanSkip::Yes => may_skip(record_view(*stored), fresh@),
            CanSkip::No(token) => !may_skip(record_view(*stored), fresh@) && token@ == fresh@,
        },
{
    match stored {
        Some(s) => {
            if s.same_as(&fresh) {
                CanSkip::Yes
            } else {
                CanSkip::No(fresh)
            }
        },
        None => CanSkip::No(fresh),
    }
}

/// Persists `token` after a real run that exited with code zero; a dry run or a
/// failed run leaves the record as it was. Returns whether the record changed.
pub fn save_cache(record: &mut Option<Fingerprint>, token: Fingerprint, exit_code: i32, dry_run: bool) -> (r: bool)
    ensures
        record_view(*final(record)) == record_after(record_view(*old(record)), token@, exit_code, dry_run),
        r == (exit_code == 0 && !dry_run),
{
    if exit_code == 0 && !dry_run {
        *record = Some(token);
        true
    } else {
        false
    }
}

/// Running an unchanged task a second time is skipped once the first run
/// succeeded, whatever the record held before.
pub proof fn lemma_unchanged_task_skips(stored: Option<FingerprintView>, fp: FingerprintView)
    ensures
        may_skip(record_after(stored, fp, 0, false), fp),
{
}

/// A change in any one factor of the fingerprint makes the task run.
pub proof fn lemma_changed_factor_runs(saved: FingerprintView, fresh: FingerprintView)
    requires
        saved.0 != fresh.0 || saved.1 != fresh.1 || saved.2 != fresh.2 || saved.3 != fresh.3
            || saved.4 != fresh.4,
    ensures
        !may_skip(Some(saved), fresh),
{
}

/// A dry run leaves every cache record as it was, whatever the exit code.
pub proof fn lemma_dry_run_keeps_record(stored: Option<FingerprintView>, token: FingerprintView, exit_code: i32)
    ensures
        record_after(stored, token, exit_code, true) == stored,
{
}

/// A failed run leaves every cache record as it was.
pub proof fn lemma_failed_run_keeps_record(
    stored: Option<FingerprintView>,
    token: FingerprintView,
    exit_code: i32,
    dry_run: bool,
)
    requires
        exit_code != 0,
    ensures
        record_after(stored, token, exit_code, dry_run) == stored,
{
}

} // verus!

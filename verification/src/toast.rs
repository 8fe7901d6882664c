//! Toasts: short notices over the main window, and the texts around them.
use crate::text::{contains, holds, law_holds, lower, same_text, string_models, to_lower};
use vstd::prelude::*;
use vstd::string::*;

verus! {

/// How long a warning stays, in milliseconds.
pub const WARNING_TTL: u64 = 5000;

/// How long an information stays, in milliseconds.
pub const INFO_TTL: u64 = 3000;

/// The weight of a toast.
#[derive(Debug, Clone, Copy, PartialEq, Eq, Structural)]
pub enum ToastKind {
    /// Stays until it is dismissed.
    Error,
    /// Stays for [`WARNING_TTL`].
    Warning,
    /// Stays for [`INFO_TTL`].
    Info,
}

impl ToastKind {
    /// How long a toast of this kind stays, in milliseconds, if it does not
    /// stay until it is dismissed.
    pub open spec fn ttl(self) -> Option<u64> {
        match self {
            ToastKind::Error => None,
            ToastKind::Warning => Some(WARNING_TTL),
            ToastKind::Info => Some(INFO_TTL),
        }
    }

    /// How long a toast of this kind stays, in milliseconds.
    pub fn auto_dismiss(self) -> (r: Option<u64>)
        ensures
            r == self.ttl(),
    {
        match self {
            ToastKind::Error => None,
            ToastKind::Warning => Some(WARNING_TTL),
            ToastKind::Info => Some(INFO_TTL),
        }
    }
}

/// The button of a toast. `action_name` is one of the `ACTION_` names.
#[derive(Debug, Clone, PartialEq, Eq)]
pub struct ToastAction {
    pub label: String,
    pub action_name: &'static str,
}

/// One toast. Times are milliseconds on one steady clock.
#[derive(Debug, Clone, PartialEq, Eq)]
pub struct Toast {
    pub id: u64,
    pub kind: ToastKind,
    pub title: String,
    pub body: Option<String>,
    pub action: Option<ToastAction>,
    pub auto_dismiss_at: Option<u64>,
    pub created_at: u64,
}

/// The toasts that are shown, oldest first.
#[derive(Debug, Clone)]
pub struct ToastStack {
    /// The id that the next toast gets.
    pub next_id: u64,
    pub toasts: Vec<Toast>,
}

/// The toast has not expired at the given time.
pub open spec fn is_live(t: Toast, now: u64) -> bool {
    t.auto_dismiss_at matches Some(deadline) ==> now < deadline
}

/// The toasts come in the order of their ids, and no id will be given again.
pub open spec fn ids_ordered(toasts: Seq<Toast>, next: u64) -> bool {
    &&& forall|i: int| 0 <= i < toasts.len() ==> (#[trigger] toasts[i]).id < next
    &&& forall|i: int, j: int|
        0 <= i < j < toasts.len() ==> (#[trigger] toasts[i]).id < (#[trigger] toasts[j]).id
}

impl Default for ToastStack {
    fn default() -> (r: Self)
        ensures
            r.toasts@.len() == 0,
            r.next_id == 0,
    {
        ToastStack { next_id: 0, toasts: Vec::new() }
    }
}

impl ToastStack {
    /// A stack without toasts.
    pub fn new() -> (r: Self)
        ensures
            r.toasts@.len() == 0,
            r.next_id == 0,
    {
        ToastStack { next_id: 0, toasts: Vec::new() }
    }

    /// Shows a toast with a title alone and returns its id.
    pub fn push(&mut self, kind: ToastKind, title: String, now: u64) -> (id: u64)
        requires
            old(self).next_id < u64::MAX,
            now + WARNING_TTL <= u64::MAX,
        ensures
            id == old(self).next_id,
            final(self).next_id == old(self).next_id + 1,
            final(self).toasts@ == old(self).toasts@.push(
                Toast {
                    id,
                    kind,
                    title,
                    body: None,
                    action: None,
                    auto_dismiss_at: deadline(kind, now),
                    created_at: now,
                },
            ),
    {
        self.push_full(kind, title, None, None, now)
    }

    /// Shows a toast and returns its id.
    pub fn push_full(
        &mut self,
        kind: ToastKind,
        title: String,
        body: Option<String>,
        action: Option<ToastAction>,
        now: u64,
    ) -> (id: u64)
        requires
            old(self).next_id < u64::MAX,
            now + WARNING_TTL <= u64::MAX,
        ensures
            id == old(self).next_id,
            final(self).next_id == old(self).next_id + 1,
            final(self).toasts@ == old(self).toasts@.push(
                Toast {
                    id,
                    kind,
                    title,
                    body,
                    action,
                    auto_dismiss_at: deadline(kind, now),
                    created_at: now,
                },
            ),
    {
        let auto_dismiss_at: Option<u64> = match kind.auto_dismiss() {
            Some(ttl) => Some(now + ttl),
            None => None,
        };
        let id: u64 = self.next_id;
        self.next_id = self.next_id + 1;
        self.toasts.push(
            Toast { id, kind, title, body, action, auto_dismiss_at, created_at: now },
        );
        id
    }

    /// Removes the toast with the given id and returns whether there was one.
    pub fn dismiss(&mut self, id: u64) -> (r: bool)
        ensures
            final(self).toasts@ == old(self).toasts@.filter(|t: Toast| t.id != id),
            final(self).next_id == old(self).next_id,
            r == exists|i: int| 0 <= i < old(self).toasts@.len() && #[trigger] old(self).toasts@[i].id == id,
    {
        let ghost all = self.toasts@;
        let ghost keep = |t: Toast| t.id != id;
        let mut removed: bool = false;
        let mut i: usize = 0;
        proof {
            assert(all.take(0) =~= Seq::<Toast>::empty());
            assert(all.take(0).filter(keep) =~= Seq::<Toast>::empty()) by {
                reveal(Seq::filter);
            }
            assert(self.toasts@ =~= all.take(0).filter(keep) + all.skip(0));
        }
        let ghost mut done: int = 0;
        while i < self.toasts.len()
            invariant
                0 <= done <= all.len(),
                keep == (|t: Toast| t.id != id),
                i <= self.toasts@.len(),
                self.toasts@ == all.take(done).filter(keep) + all.skip(done),
                i == all.take(done).filter(keep).len(),
                self.next_id == old(self).next_id,
                removed == exists|k: int| 0 <= k < done && (#[trigger] all[k]).id == id,
            decreases all.len() - done,
        {
            proof {
                lemma_filter_step(all, keep, done);
                assert(self.toasts@[i as int] == all[done]);
            }
            if self.toasts[i].id == id {
                let _ = self.toasts.remove(i);
                removed = true;
                assert(self.toasts@ =~= all.take(done + 1).filter(keep) + all.skip(done + 1));
            } else {
                i += 1;
                assert(self.toasts@ =~= all.take(done + 1).filter(keep) + all.skip(done + 1));
            }
            proof {
                done = done + 1;
            }
        }
        proof {
            assert(all.skip(done).len() == all.len() - done);
            assert(all.take(done) =~= all);
            assert(self.toasts@ =~= all.filter(keep));
        }
        removed
    }

    /// Removes the toasts that have expired.
    pub fn tick(&mut self, now: u64)
        ensures
            final(self).toasts@ == old(self).toasts@.filter(|t: Toast| is_live(t, now)),
            final(self).next_id == old(self).next_id,
    {
        let ghost all = self.toasts@;
        let ghost keep = |t: Toast| is_live(t, now);
        let mut i: usize = 0;
        proof {
            assert(all.take(0) =~= Seq::<Toast>::empty());
            assert(all.take(0).filter(keep) =~= Seq::<Toast>::empty()) by {
                reveal(Seq::filter);
            }
            assert(self.toasts@ =~= all.take(0).filter(keep) + all.skip(0));
        }
        let ghost mut done: int = 0;
        while i < self.toasts.len()
            invariant
                0 <= done <= all.len(),
                keep == (|t: Toast| is_live(t, now)),
                i <= self.toasts@.len(),
                self.toasts@ == all.take(done).filter(keep) + all.skip(done),
                i == all.take(done).filter(keep).len(),
                self.next_id == old(self).next_id,
            decreases all.len() - done,
        {
            proof {
                lemma_filter_step(all, keep, done);
                assert(self.toasts@[i as int] == all[done]);
            }
            let live: bool = match self.toasts[i].auto_dismiss_at {
                Some(deadline) => now < deadline,
                None => true,
            };
            if live {
                i += 1;
            } else {
                let _ = self.toasts.remove(i);
            }
            proof {
                assert(self.toasts@ =~= all.take(done + 1).filter(keep) + all.skip(done + 1));
                done = done + 1;
            }
        }
        proof {
            assert(all.skip(done).len() == all.len() - done);
            assert(all.take(done) =~= all);
            assert(self.toasts@ =~= all.filter(keep));
        }
    }

    /// Whether there are no toasts.
    pub fn is_empty(&self) -> (r: bool)
        ensures
            r == (self.toasts@.len() == 0),
    {
        self.toasts.len() == 0
    }

    /// How many toasts there are.
    pub fn len(&self) -> (r: usize)
        ensures
            r == self.toasts@.len(),
    {
        self.toasts.len()
    }
}

/// When a toast of a kind that is shown at `now` expires.
pub open spec fn deadline(kind: ToastKind, now: u64) -> Option<u64> {
    match kind.ttl() {
        Some(ttl) => Some((now + ttl) as u64),
        None => None,
    }
}

/// Filtering one more element.
pub proof fn lemma_filter_step<T>(all: Seq<T>, keep: spec_fn(T) -> bool, n: int)
    requires
        0 <= n < all.len(),
    ensures
        all.take(n + 1).filter(keep) == if keep(all[n]) {
            all.take(n).filter(keep).push(all[n])
        } else {
            all.take(n).filter(keep)
        },
{
    reveal(Seq::filter);
    assert(all.take(n + 1).drop_last() =~= all.take(n));
    assert(all.take(n + 1).last() == all[n]);
}

/// Every element that a filter leaves was there before and is one that it
/// keeps, and the order does not change.
proof fn lemma_filter_from(all: Seq<Toast>, keep: spec_fn(Toast) -> bool, next: u64)
    requires
        ids_ordered(all, next),
    ensures
        ids_ordered(all.filter(keep), next),
        forall|i: int|
            #![trigger all.filter(keep)[i]]
            0 <= i < all.filter(keep).len() ==> exists|k: int|
                0 <= k < all.len() && #[trigger] all[k] == all.filter(keep)[i],
    decreases all.len(),
{
    reveal(Seq::filter);
    if all.len() > 0 {
        let before = all.drop_last();
        assert(ids_ordered(before, next)) by {
            assert forall|i: int, j: int| 0 <= i < j < before.len() implies (
            #[trigger] before[i]).id < (#[trigger] before[j]).id by {
                assert(all[i].id < all[j].id);
            }
            assert forall|i: int| 0 <= i < before.len() implies (#[trigger] before[i]).id
                < next by {
                assert(all[i].id < next);
            }
        }
        lemma_filter_from(before, keep, next);
        let kept = all.filter(keep);
        let rest = before.filter(keep);
        assert forall|i: int, j: int| 0 <= i < j < kept.len() implies (#[trigger] kept[i]).id < (
        #[trigger] kept[j]).id by {
            if j < rest.len() {
                assert(rest[i].id < rest[j].id);
            } else {
                assert(kept[i] == rest[i]);
                let k = choose|k: int| 0 <= k < before.len() && #[trigger] before[k] == rest[i];
                assert(all[k].id < all[all.len() - 1].id);
            }
        }
        assert forall|i: int| 0 <= i < kept.len() implies (#[trigger] kept[i]).id < next by {
            if i < rest.len() {
                assert(rest[i].id < next);
            } else {
                assert(all[all.len() - 1].id < next);
            }
        }
        assert forall|i: int|
            #![trigger kept[i]]
            0 <= i < kept.len() implies exists|k: int|
            0 <= k < all.len() && #[trigger] all[k] == kept[i] by {
            if i < rest.len() {
                let k = choose|k: int| 0 <= k < before.len() && #[trigger] before[k] == rest[i];
                assert(all[k] == kept[i]);
            } else {
                assert(all[all.len() - 1] == kept[i]);
            }
        }
    }
}

/// Ids grow from toast to toast, and no id is given twice, whatever is shown,
/// dismissed or left to expire.
pub proof fn law_ids_stay_ordered(toasts: Seq<Toast>, next: u64, t: Toast, id: u64, now: u64)
    requires
        ids_ordered(toasts, next),
        t.id == next,
        next < u64::MAX,
    ensures
        ids_ordered(toasts.push(t), (next + 1) as u64),
        ids_ordered(toasts.filter(|x: Toast| x.id != id), next),
        ids_ordered(toasts.filter(|x: Toast| is_live(x, now)), next),
{
    lemma_filter_from(toasts, |x: Toast| x.id != id, next);
    lemma_filter_from(toasts, |x: Toast| is_live(x, now), next);
}

/// A call that changes a stack.
pub enum StackCall {
    /// A toast was shown, with or without all of its parts.
    Push(Toast),
    /// The toast with an id was dismissed.
    Dismiss(u64),
    /// Toasts were left to expire.
    Tick(u64),
}

/// A call turns one stack into another, as the methods of [`ToastStack`] do.
pub open spec fn is_next(before: ToastStack, call: StackCall, next: ToastStack) -> bool {
    match call {
        StackCall::Push(t) => {
            &&& t.id == before.next_id
            &&& next.next_id == before.next_id + 1
            &&& next.toasts@ == before.toasts@.push(t)
        },
        StackCall::Dismiss(id) => {
            &&& next.next_id == before.next_id
            &&& next.toasts@ == before.toasts@.filter(|x: Toast| x.id != id)
        },
        StackCall::Tick(now) => {
            &&& next.next_id == before.next_id
            &&& next.toasts@ == before.toasts@.filter(|x: Toast| is_live(x, now))
        },
    }
}

/// What a new stack becomes, call by call.
pub open spec fn is_history(states: Seq<ToastStack>, calls: Seq<StackCall>) -> bool {
    &&& states.len() == calls.len() + 1
    &&& states[0].next_id == 0
    &&& states[0].toasts@.len() == 0
    &&& forall|i: int|
        0 <= i < calls.len() ==> is_next(states[i], #[trigger] calls[i], states[i + 1])
}

/// How many of the first `n` calls showed a toast.
pub open spec fn pushes(calls: Seq<StackCall>, n: int) -> int
    decreases n,
{
    if n <= 0 {
        0
    } else if calls[n - 1] is Push {
        pushes(calls, n - 1) + 1
    } else {
        pushes(calls, n - 1)
    }
}

/// The id of a toast is the number of toasts that were shown before it, so that
/// ids count up from zero, and no id is ever given again.
pub proof fn law_ids_count_pushes(states: Seq<ToastStack>, calls: Seq<StackCall>, i: int)
    requires
        is_history(states, calls),
        0 <= i <= calls.len(),
    ensures
        states[i].next_id == pushes(calls, i),
        ids_ordered(states[i].toasts@, states[i].next_id),
        i < calls.len() ==> (calls[i] matches StackCall::Push(t) ==> t.id == pushes(calls, i)),
    decreases i,
{
    if i > 0 {
        law_ids_count_pushes(states, calls, i - 1);
        let before = states[i - 1];
        assert(is_next(before, calls[i - 1], states[i]));
        match calls[i - 1] {
            StackCall::Push(t) => {
                law_ids_stay_ordered(before.toasts@, before.next_id, t, 0, 0);
            },
            StackCall::Dismiss(id) => {
                lemma_filter_from(before.toasts@, |x: Toast| x.id != id, before.next_id);
            },
            StackCall::Tick(now) => {
                lemma_filter_from(before.toasts@, |x: Toast| is_live(x, now), before.next_id);
            },
        }
    }
    if i < calls.len() {
        assert(is_next(states[i], calls[i], states[i + 1]));
    }
}

/// A toast that was shown and is gone never comes back.
pub proof fn law_gone_toasts_stay_gone(
    states: Seq<ToastStack>,
    calls: Seq<StackCall>,
    i: int,
    j: int,
    id: u64,
)
    requires
        is_history(states, calls),
        0 <= i <= j <= calls.len(),
        id < states[i].next_id,
        forall|k: int|
            0 <= k < states[i].toasts@.len() ==> (#[trigger] states[i].toasts@[k]).id != id,
    ensures
        id < states[j].next_id,
        forall|k: int|
            0 <= k < states[j].toasts@.len() ==> (#[trigger] states[j].toasts@[k]).id != id,
    decreases j - i,
{
    if i < j {
        law_gone_toasts_stay_gone(states, calls, i, j - 1, id);
        let before = states[j - 1];
        law_ids_count_pushes(states, calls, j - 1);
        assert(is_next(before, calls[j - 1], states[j]));
        match calls[j - 1] {
            StackCall::Push(t) => {},
            StackCall::Dismiss(other) => {
                lemma_filter_from(before.toasts@, |x: Toast| x.id != other, before.next_id);
            },
            StackCall::Tick(now) => {
                lemma_filter_from(before.toasts@, |x: Toast| is_live(x, now), before.next_id);
            },
        }
    }
}

/// A toast that is not of the given id survives the dismissal of that id, and
/// an error survives any tick.
pub proof fn law_toasts_survive(toasts: Seq<Toast>, i: int, id: u64, now: u64)
    requires
        0 <= i < toasts.len(),
    ensures
        toasts[i].id != id ==> toasts.filter(|x: Toast| x.id != id).contains(toasts[i]),
        toasts[i].id == id ==> !toasts.filter(|x: Toast| x.id != id).contains(toasts[i]),
        toasts[i].auto_dismiss_at is None ==> toasts.filter(
            |x: Toast| is_live(x, now),
        ).contains(toasts[i]),
{
    let other = |x: Toast| x.id != id;
    let live = |x: Toast| is_live(x, now);
    if toasts[i].id != id {
        toasts.lemma_filter_contains(other, i);
    } else if toasts.filter(other).contains(toasts[i]) {
        let k = toasts.filter(other).index_of(toasts[i]);
        toasts.lemma_filter_pred(other, k);
        assert(other(toasts.filter(other)[k]));
    }
    if toasts[i].auto_dismiss_at is None {
        toasts.lemma_filter_contains(live, i);
    }
}

// ---------------------------------------------------------------------------
// Action names
// ---------------------------------------------------------------------------
/// Delete the damaged cache and scan again.
pub const ACTION_CACHE_DELETE_AND_RESCAN: &'static str = "cache.delete_and_rescan";

/// Scan again and overwrite the cache of a newer version.
pub const ACTION_CACHE_RESCAN: &'static str = "cache.rescan";

/// Forget a recent folder that is gone.
pub const ACTION_REMOVE_STALE_RECENT: &'static str = "recents.remove_stale";

/// Open the broken configuration in an editor.
pub const ACTION_CONFIG_FIX: &'static str = "config.fix";

/// Replace the broken configuration by the default one.
pub const ACTION_CONFIG_RESET: &'static str = "config.reset";

/// Show the issues of the last scan.
pub const ACTION_SHOW_ISSUES: &'static str = "scan.show_issues";

/// What the button of a toast sets off.
#[derive(Debug, Clone, Copy, PartialEq, Eq, Structural)]
pub enum ToastCommand {
    DeleteCacheAndRescan,
    Rescan,
    RemoveStaleRecent,
    ShowIssues,
    FixConfig,
    ResetConfig,
    /// The name is none of the `ACTION_` names.
    Unknown,
}

/// What an action name stands for.
pub open spec fn command_for(name: Seq<char>) -> ToastCommand {
    if name == ACTION_CACHE_DELETE_AND_RESCAN@ {
        ToastCommand::DeleteCacheAndRescan
    } else if name == ACTION_CACHE_RESCAN@ {
        ToastCommand::Rescan
    } else if name == ACTION_REMOVE_STALE_RECENT@ {
        ToastCommand::RemoveStaleRecent
    } else if name == ACTION_SHOW_ISSUES@ {
        ToastCommand::ShowIssues
    } else if name == ACTION_CONFIG_FIX@ {
        ToastCommand::FixConfig
    } else if name == ACTION_CONFIG_RESET@ {
        ToastCommand::ResetConfig
    } else {
        ToastCommand::Unknown
    }
}

/// What an action name stands for.
pub fn toast_command(name: &str) -> (r: ToastCommand)
    ensures
        r == command_for(name@),
{
    if same_text(name, ACTION_CACHE_DELETE_AND_RESCAN) {
        ToastCommand::DeleteCacheAndRescan
    } else if same_text(name, ACTION_CACHE_RESCAN) {
        ToastCommand::Rescan
    } else if same_text(name, ACTION_REMOVE_STALE_RECENT) {
        ToastCommand::RemoveStaleRecent
    } else if same_text(name, ACTION_SHOW_ISSUES) {
        ToastCommand::ShowIssues
    } else if same_text(name, ACTION_CONFIG_FIX) {
        ToastCommand::FixConfig
    } else if same_text(name, ACTION_CONFIG_RESET) {
        ToastCommand::ResetConfig
    } else {
        ToastCommand::Unknown
    }
}

// ---------------------------------------------------------------------------
// Errors of the cache
// ---------------------------------------------------------------------------
/// Why a cache could not be used.
#[derive(Debug, Clone, PartialEq, Eq)]
pub enum CacheError {
    /// It was written by a newer version.
    NewerSchema { found: u32, supported: u32 },
    /// Anything else: the messages of the error and of the errors behind it.
    Other { chain: Vec<String> },
}

/// How an unusable cache is reported.
#[derive(Debug, Clone, Copy, PartialEq, Eq, Structural)]
pub enum CacheErrorClass {
    /// Offer to scan again.
    NewerSchema,
    /// Offer to delete the cache and scan again.
    Corrupted,
    /// Report the error alone.
    Other,
}

/// The message speaks of a damaged database.
pub open spec fn speaks_of_damage(message: Seq<char>) -> bool {
    holds(lower(message), "corrupt"@) || holds(
        lower(message),
        "database disk image is malformed"@,
    )
}

/// Whether the message speaks of a damaged database.
pub fn looks_corrupted(message: &str) -> (r: bool)
    ensures
        r == speaks_of_damage(message@),
{
    let msg: String = to_lower(message);
    contains(msg.as_str(), "corrupt") || contains(
        msg.as_str(),
        "database disk image is malformed",
    )
}

/// Some message of the chain speaks of a damaged database.
pub open spec fn chain_damaged(chain: Seq<Seq<char>>) -> bool {
    exists|i: int| 0 <= i < chain.len() && speaks_of_damage(#[trigger] chain[i])
}

/// Whether some message of the chain speaks of a damaged database.
fn error_chain_looks_corrupted(chain: &Vec<String>) -> (r: bool)
    ensures
        r == chain_damaged(string_models(chain@)),
{
    let ghost all = string_models(chain@);
    let mut i: usize = 0;
    while i < chain.len()
        invariant
            i <= chain.len(),
            all == string_models(chain@),
            forall|k: int| 0 <= k < i ==> !speaks_of_damage(#[trigger] all[k]),
        decreases chain.len() - i,
    {
        assert(all[i as int] == chain@[i as int]@);
        if looks_corrupted(chain[i].as_str()) {
            assert(speaks_of_damage(all[i as int]));
            return true;
        }
        i += 1;
    }
    false
}

/// How an unusable cache is reported.
pub fn classify_cache_error(err: &CacheError) -> (r: CacheErrorClass)
    ensures
        r == match err {
            CacheError::NewerSchema { .. } => CacheErrorClass::NewerSchema,
            CacheError::Other { chain } => if chain_damaged(string_models(chain@)) {
                CacheErrorClass::Corrupted
            } else {
                CacheErrorClass::Other
            },
        },
{
    match err {
        CacheError::NewerSchema { .. } => CacheErrorClass::NewerSchema,
        CacheError::Other { chain } => if error_chain_looks_corrupted(chain) {
            CacheErrorClass::Corrupted
        } else {
            CacheErrorClass::Other
        },
    }
}

// ---------------------------------------------------------------------------
// Panics
// ---------------------------------------------------------------------------
/// What a panic carried.
#[derive(Debug, Clone, PartialEq, Eq)]
pub enum PanicPayload {
    /// A string literal.
    Literal(&'static str),
    /// An owned string.
    Owned(String),
    /// Something that is no string.
    Other,
}

/// The message of a panic.
pub fn panic_message(payload: &PanicPayload) -> (r: String)
    ensures
        r@ == match payload {
            PanicPayload::Literal(s) => s@,
            PanicPayload::Owned(s) => s@,
            PanicPayload::Other => "panic payload was not a string"@,
        },
{
    match payload {
        PanicPayload::Literal(s) => (*s).to_owned(),
        PanicPayload::Owned(s) => s.clone(),
        PanicPayload::Other => "panic payload was not a string".to_owned(),
    }
}

// ---------------------------------------------------------------------------
// Issues of a scan
// ---------------------------------------------------------------------------
/// What went wrong with a file in a scan.
#[derive(Debug, Clone, Copy, PartialEq, Eq, Structural)]
pub enum FileIssueKind {
    ReadError,
    Utf8,
    TierBParse,
    TierBPanic,
}

/// A file that a scan could not use.
#[derive(Debug, Clone)]
pub struct FileIssue {
    pub path: String,
    pub kind: FileIssueKind,
    pub message: String,
}

/// The name of a kind of issue.
pub open spec fn kind_text(kind: FileIssueKind) -> Seq<char> {
    match kind {
        FileIssueKind::ReadError => "ReadError"@,
        FileIssueKind::Utf8 => "Utf8"@,
        FileIssueKind::TierBParse => "TierBParse"@,
        FileIssueKind::TierBPanic => "TierBPanic"@,
    }
}

/// The name of a kind of issue.
pub fn kind_camel_label(kind: FileIssueKind) -> (r: &'static str)
    ensures
        r@ == kind_text(kind),
{
    match kind {
        FileIssueKind::ReadError => "ReadError",
        FileIssueKind::Utf8 => "Utf8",
        FileIssueKind::TierBParse => "TierBParse",
        FileIssueKind::TierBPanic => "TierBPanic",
    }
}

/// The line of an issue. A message that is empty is left out with its dash.
pub open spec fn issue_line(path: Seq<char>, kind: FileIssueKind, message: Seq<char>) -> Seq<char> {
    "- `"@ + path + "`: "@ + kind_text(kind) + if message.len() == 0 {
        "\n"@
    } else {
        " \u{2014} "@ + message + "\n"@
    }
}

/// The lines of the first `n` issues under their heading.
pub open spec fn issue_block(issues: Seq<FileIssue>, n: int) -> Seq<char>
    decreases n,
{
    if n <= 0 {
        "### dedup scan issues\n"@
    } else {
        issue_block(issues, n - 1) + issue_line(
            issues[n - 1].path@,
            issues[n - 1].kind,
            issues[n - 1].message@,
        )
    }
}

/// The issues as a block of markdown, ready to be pasted into a report.
pub fn format_issues_clipboard(issues: &Vec<FileIssue>) -> (r: String)
    ensures
        r@ == issue_block(issues@, issues@.len() as int),
{
    let mut out: String = "### dedup scan issues\n".to_owned();
    let mut i: usize = 0;
    while i < issues.len()
        invariant
            i <= issues.len(),
            out@ == issue_block(issues@, i as int),
        decreases issues.len() - i,
    {
        let issue = &issues[i];
        let ghost before = out@;
        out.append("- `");
        out.append(issue.path.as_str());
        out.append("`: ");
        out.append(kind_camel_label(issue.kind));
        if issue.message.as_str().is_empty() {
            out.append("\n");
        } else {
            out.append(" \u{2014} ");
            out.append(issue.message.as_str());
            out.append("\n");
        }
        assert(out@ =~= before + issue_line(issue.path@, issue.kind, issue.message@));
        i += 1;
    }
    out
}

/// Errors stay until they are dismissed, warnings for five seconds and
/// information for three: before that time a toast is there, and from then on it
/// is gone.
pub proof fn law_lifetimes(t: Toast, shown: u64, now: u64)
    requires
        shown + 5000 <= u64::MAX,
        t.auto_dismiss_at == deadline(t.kind, shown),
    ensures
        t.kind == ToastKind::Error ==> is_live(t, now),
        t.kind == ToastKind::Warning ==> (is_live(t, now) <==> now < shown + 5000),
        t.kind == ToastKind::Info ==> (is_live(t, now) <==> now < shown + 3000),
{
}

/// A tick removes the toasts whose time has come and no others.
pub proof fn law_tick_removes_expired(toasts: Seq<Toast>, t: Toast, now: u64)
    ensures
        toasts.filter(|x: Toast| is_live(x, now)).contains(t) <==> toasts.contains(t)
            && !(t.auto_dismiss_at is Some && t.auto_dismiss_at->0 <= now),
{
    let live = |x: Toast| is_live(x, now);
    if toasts.filter(live).contains(t) {
        let k = toasts.filter(live).index_of(t);
        toasts.lemma_filter_contains_rev(live, t);
        toasts.lemma_filter_pred(live, k);
        assert(live(toasts.filter(live)[k]));
    }
    if toasts.contains(t) && live(t) {
        let k = toasts.index_of(t);
        toasts.lemma_filter_contains(live, k);
    }
}

/// Each button sets off what its name says, and no other name sets off anything.
pub proof fn law_buttons(name: Seq<char>)
    ensures
        command_for(name) == ToastCommand::DeleteCacheAndRescan <==> name
            == "cache.delete_and_rescan"@,
        command_for(name) == ToastCommand::Rescan <==> name == "cache.rescan"@,
        command_for(name) == ToastCommand::RemoveStaleRecent <==> name == "recents.remove_stale"@,
        command_for(name) == ToastCommand::ShowIssues <==> name == "scan.show_issues"@,
        command_for(name) == ToastCommand::FixConfig <==> name == "config.fix"@,
        command_for(name) == ToastCommand::ResetConfig <==> name == "config.reset"@,
{
    reveal_strlit("cache.delete_and_rescan");
    reveal_strlit("cache.rescan");
    reveal_strlit("recents.remove_stale");
    reveal_strlit("scan.show_issues");
    reveal_strlit("config.fix");
    reveal_strlit("config.reset");
    assert("cache.delete_and_rescan"@.len() == 23);
    assert("cache.rescan"@.len() == 12);
    assert("recents.remove_stale"@.len() == 20);
    assert("scan.show_issues"@.len() == 16);
    assert("config.fix"@.len() == 10);
    assert("config.reset"@.len() == 12);
    assert("cache.rescan"@[1] != "config.reset"@[1]);
}

/// A message speaks of damage exactly where one of two texts stands in it, in
/// whatever letters.
pub proof fn law_damage(message: Seq<char>)
    ensures
        speaks_of_damage(message) <==> (exists|a: Seq<char>, b: Seq<char>|
            lower(message) == #[trigger] (a + "corrupt"@ + b)) || (exists|
            a: Seq<char>,
            b: Seq<char>,
        | lower(message) == #[trigger] (a + "database disk image is malformed"@ + b)),
{
    law_holds(lower(message), "corrupt"@);
    law_holds(lower(message), "database disk image is malformed"@);
}

/// A damaged cache is told by any of the messages of its error.
pub proof fn law_chain_of_damage(chain: Seq<Seq<char>>, i: int)
    requires
        0 <= i < chain.len(),
        speaks_of_damage(chain[i]),
    ensures
        chain_damaged(chain),
{
}

/// An error none of whose messages speaks of damage does not tell of any.
pub proof fn law_no_damage(chain: Seq<Seq<char>>)
    requires
        forall|i: int| 0 <= i < chain.len() ==> !speaks_of_damage(#[trigger] chain[i]),
    ensures
        !chain_damaged(chain),
{
}

/// The issues are listed under one heading, each on a line of its own and in
/// order: its file, what went wrong, and the message where there is one.
pub proof fn law_issues_are_listed(issues: Seq<FileIssue>)
    ensures
        issue_block(issues, issues.len() as int) == "### dedup scan issues\n"@ + issues.map_values(
            |issue: FileIssue|
                "- `"@ + issue.path@ + "`: "@ + (match issue.kind {
                    FileIssueKind::ReadError => "ReadError"@,
                    FileIssueKind::Utf8 => "Utf8"@,
                    FileIssueKind::TierBParse => "TierBParse"@,
                    FileIssueKind::TierBPanic => "TierBPanic"@,
                }) + if issue.message@.len() > 0 {
                    " \u{2014} "@ + issue.message@ + "\n"@
                } else {
                    "\n"@
                },
        ).flatten(),
{
    lemma_issue_lines(issues, issues.len() as int);
    assert(issues.take(issues.len() as int) =~= issues);
}

/// The lines of the first issues.
proof fn lemma_issue_lines(issues: Seq<FileIssue>, n: int)
    requires
        0 <= n <= issues.len(),
    ensures
        issue_block(issues, n) == "### dedup scan issues\n"@ + issues.take(n).map_values(
            |issue: FileIssue|
                "- `"@ + issue.path@ + "`: "@ + (match issue.kind {
                    FileIssueKind::ReadError => "ReadError"@,
                    FileIssueKind::Utf8 => "Utf8"@,
                    FileIssueKind::TierBParse => "TierBParse"@,
                    FileIssueKind::TierBPanic => "TierBPanic"@,
                }) + if issue.message@.len() > 0 {
                    " \u{2014} "@ + issue.message@ + "\n"@
                } else {
                    "\n"@
                },
        ).flatten(),
    decreases n,
{
    let f = |issue: FileIssue|
        "- `"@ + issue.path@ + "`: "@ + (match issue.kind {
            FileIssueKind::ReadError => "ReadError"@,
            FileIssueKind::Utf8 => "Utf8"@,
            FileIssueKind::TierBParse => "TierBParse"@,
            FileIssueKind::TierBPanic => "TierBPanic"@,
        }) + if issue.message@.len() > 0 {
            " \u{2014} "@ + issue.message@ + "\n"@
        } else {
            "\n"@
        };
    if n > 0 {
        lemma_issue_lines(issues, n - 1);
        let before = issues.take(n - 1).map_values(f);
        assert(issues.take(n).map_values(f) =~= before.push(f(issues[n - 1])));
        before.lemma_flatten_push(f(issues[n - 1]));
        assert(f(issues[n - 1]) =~= issue_line(
            issues[n - 1].path@,
            issues[n - 1].kind,
            issues[n - 1].message@,
        ));
        assert(issue_block(issues, n) =~= "### dedup scan issues\n"@ + issues.take(n).map_values(
            f,
        ).flatten());
    } else {
        assert(issues.take(0).map_values(f) =~= Seq::empty());
        assert(issue_block(issues, n) =~= "### dedup scan issues\n"@ + issues.take(0).map_values(
            f,
        ).flatten());
    }
}

} // verus!

//! The one connection pool of the process: how it comes to be, where it is
//! kept, and how it is handed out.
//!
//! Connecting to the datastore is the driver's work. The functions here say
//! what to do with each outcome, so a driver runs them in a loop: it feeds
//! [`init_db`] an event, does what the returned step asks, and feeds the
//! outcome back until the step is `Done`.

use vstd::prelude::*;
use vstd::string::*;
use crate::env::VarError;
use crate::env::VarErrorView;
use crate::error::StartupError;
use crate::error::StartupErrorView;

verus! {

/// What the driver reports while a pool is being set up.
pub enum PoolEvent<P> {
    /// The lookup of `DATABASE_URL` came back.
    UrlRead(Result<String, VarError>),
    /// The connection attempt came back: with the pool, or with the driver's
    /// account of what went wrong.
    Connected(Result<P, String>),
}

/// A `PoolEvent` with its texts as sequences of characters.
pub enum PoolEventView<P> {
    UrlRead(Result<Seq<char>, VarErrorView>),
    Connected(Result<P, Seq<char>>),
}

impl<P> View for PoolEvent<P> {
    type V = PoolEventView<P>;

    open spec fn view(&self) -> PoolEventView<P> {
        match self {
            PoolEvent::UrlRead(Ok(url)) => PoolEventView::UrlRead(Ok(url@)),
            PoolEvent::UrlRead(Err(e)) => PoolEventView::UrlRead(Err(e@)),
            PoolEvent::Connected(Ok(pool)) => PoolEventView::Connected(Ok(*pool)),
            PoolEvent::Connected(Err(reason)) => PoolEventView::Connected(Err(reason@)),
        }
    }
}

/// What comes next in setting up a pool.
pub enum Step<T> {
    /// The driver is to connect to the datastore at this URL and report back
    /// with `PoolEvent::Connected`.
    Connect(String),
    /// Set-up is over, with this result.
    Done(Result<T, StartupError>),
}

/// A `Step` with its texts as sequences of characters.
pub enum StepView<T> {
    Connect(Seq<char>),
    Done(Result<T, StartupErrorView>),
}

impl<T> View for Step<T> {
    type V = StepView<T>;

    open spec fn view(&self) -> StepView<T> {
        match self {
            Step::Connect(url) => StepView::Connect(url@),
            Step::Done(Ok(value)) => StepView::Done(Ok(*value)),
            Step::Done(Err(e)) => StepView::Done(Err(e@)),
        }
    }
}

/// The step that follows `event` when a pool is being created.
///
/// A URL that was read is to be connected to; a pool that was opened is the
/// result. A missing URL is a configuration error and a failed attempt a
/// connection error, each with the reason appended to its message.
pub open spec fn pool_step<P>(event: PoolEventView<P>) -> StepView<P> {
    match event {
        PoolEventView::UrlRead(Ok(url)) => StepView::Connect(url),
        PoolEventView::UrlRead(Err(e)) => StepView::Done(
            Err(StartupErrorView::Configuration("DATABASE_URL not set: "@ + e.message())),
        ),
        PoolEventView::Connected(Ok(pool)) => StepView::Done(Ok(pool)),
        PoolEventView::Connected(Err(reason)) => StepView::Done(
            Err(StartupErrorView::Connection("Failed to connect to database: "@ + reason)),
        ),
    }
}

/// Decides what follows `event` on the way to a connection pool.
pub fn create_pool<P>(event: PoolEvent<P>) -> (step: Step<P>)
    ensures
        step@ == pool_step(event@),
{
    match event {
        PoolEvent::UrlRead(Ok(url)) => Step::Connect(url),
        PoolEvent::UrlRead(Err(e)) => {
            let mut text = String::from_str("DATABASE_URL not set: ");
            let reason = e.message();
            text.append(reason.as_str());
            Step::Done(Err(StartupError::Configuration(text)))
        },
        PoolEvent::Connected(Ok(pool)) => Step::Done(Ok(pool)),
        PoolEvent::Connected(Err(reason)) => {
            let mut text = String::from_str("Failed to connect to database: ");
            text.append(reason.as_str());
            Step::Done(Err(StartupError::Connection(text)))
        },
    }
}

/// The write-once slot that holds the pool. It starts empty, takes one pool,
/// and keeps that pool for good: nothing replaces or clears it.
pub struct PoolSlot<P> {
    pool: Option<P>,
}

impl<P> View for PoolSlot<P> {
    type V = Option<P>;

    /// The pool in the slot, if it has one.
    closed spec fn view(&self) -> Option<P> {
        self.pool
    }
}

impl<P> PoolSlot<P> {
    /// An empty slot.
    pub fn new() -> (slot: PoolSlot<P>)
        ensures
            slot@ is None,
    {
        PoolSlot { pool: None }
    }

    /// Whether the slot holds a pool.
    pub fn is_initialized(&self) -> (filled: bool)
        ensures
            filled == (self@ is Some),
    {
        self.pool.is_some()
    }

    /// The pool in the slot, if it has one.
    pub fn get(&self) -> (pool: Option<&P>)
        ensures
            pool == match self@ {
                Some(p) => Some(&p),
                None => None,
            },
    {
        self.pool.as_ref()
    }

    /// Puts `pool` into the slot if the slot is empty. A filled slot stays as
    /// it is, and `pool` comes back.
    pub fn set(&mut self, pool: P) -> (result: Result<(), P>)
        ensures
            old(self)@ is None ==> result == Ok::<(), P>(()) && final(self)@ == Some(pool),
            old(self)@ is Some ==> result == Err::<(), P>(pool) && final(self)@ == old(self)@,
    {
        if self.pool.is_some() {
            Err(pool)
        } else {
            self.pool = Some(pool);
            Ok(())
        }
    }
}

/// What `init_db` does on `event` to a slot that holds `slot`: the slot
/// afterwards, and the step that follows.
///
/// Only a pool that was opened touches the slot, and only an empty one: a
/// filled slot keeps its pool and the attempt ends as `AlreadyInitialized`.
pub open spec fn init_step<P>(slot: Option<P>, event: PoolEventView<P>) -> (Option<P>, StepView<()>) {
    match pool_step(event) {
        StepView::Connect(url) => (slot, StepView::Connect(url)),
        StepView::Done(Err(e)) => (slot, StepView::Done(Err(e))),
        StepView::Done(Ok(pool)) => match slot {
            None => (Some(pool), StepView::Done(Ok(()))),
            Some(_) => (slot, StepView::Done(Err(StartupErrorView::AlreadyInitialized))),
        },
    }
}

/// Carries the initialization of the process-wide pool one event further.
pub fn init_db<P>(slot: &mut PoolSlot<P>, event: PoolEvent<P>) -> (step: Step<()>)
    ensures
        (final(slot)@, step@) == init_step(old(slot)@, event@),
{
    match create_pool(event) {
        Step::Connect(url) => Step::Connect(url),
        Step::Done(Err(e)) => Step::Done(Err(e)),
        Step::Done(Ok(pool)) => match slot.set(pool) {
            Ok(()) => Step::Done(Ok(())),
            Err(_) => Step::Done(Err(StartupError::AlreadyInitialized)),
        },
    }
}

/// The pool of the process. The slot must have been filled: to ask for the
/// pool before initialization succeeded is a defect of the caller.
pub fn get_db_pool<P>(slot: &PoolSlot<P>) -> (pool: &P)
    requires
        slot@ is Some,
    ensures
        Some(*pool) == slot@,
{
    slot.pool.as_ref().unwrap()
}

/// A first initialization succeeds: on an empty slot, a URL that was read is
/// to be connected to, and the pool that the connection gives ends up in the
/// slot, where `get_db_pool` finds it.
pub proof fn lemma_first_initialization_succeeds<P>(url: Seq<char>, pool: P)
    ensures
        init_step(None::<P>, PoolEventView::UrlRead(Ok(url))) == (None::<P>, StepView::<()>::Connect(url)),
        init_step(None::<P>, PoolEventView::Connected(Ok(pool))) == (
            Some(pool),
            StepView::<()>::Done(Ok(())),
        ),
{
}

/// Once the slot holds a pool, it holds that pool for good: whatever event
/// comes, the slot is left as it was, and no initialization succeeds again.
pub proof fn lemma_filled_slot_is_kept<P>(pool: P, event: PoolEventView<P>)
    ensures
        init_step(Some(pool), event).0 == Some(pool),
        !(init_step(Some(pool), event).1 matches StepView::Done(Ok(_))),
{
}

/// A second initialization is rejected: after one that succeeded, an
/// attempt that gets as far as a pool of its own ends as
/// `AlreadyInitialized`, and the slot still holds the first pool.
pub proof fn lemma_second_initialization_is_rejected<P>(first: P, second: P)
    ensures
        ({
            let (slot, step) = init_step(None::<P>, PoolEventView::Connected(Ok(first)));
            &&& step == StepView::<()>::Done(Ok(()))
            &&& init_step(slot, PoolEventView::Connected(Ok(second))) == (
                Some(first),
                StepView::<()>::Done(Err(StartupErrorView::AlreadyInitialized)),
            )
        }),
{
}

/// Only a pool that was opened can fill the slot: every other event leaves
/// it as it was.
pub proof fn lemma_only_a_pool_fills_the_slot<P>(slot: Option<P>, event: PoolEventView<P>)
    requires
        !(event matches PoolEventView::Connected(Ok(_))),
    ensures
        init_step(slot, event).0 == slot,
{
}

/// A missing `DATABASE_URL` ends initialization with a configuration error
/// and leaves the slot as it was, so that a later attempt on an empty slot,
/// made with a URL, still succeeds.
pub proof fn lemma_missing_url_leaves_slot_open<P>(
    slot: Option<P>,
    e: VarErrorView,
    url: Seq<char>,
    pool: P,
)
    ensures
        init_step(slot, PoolEventView::UrlRead(Err(e))) == (
            slot,
            StepView::<()>::Done(
                Err(StartupErrorView::Configuration("DATABASE_URL not set: "@ + e.message())),
            ),
        ),
        slot is None ==> ({
            let (after, _) = init_step(slot, PoolEventView::UrlRead(Err(e)));
            &&& init_step(after, PoolEventView::UrlRead(Ok(url))) == (after, StepView::<()>::Connect(url))
            &&& init_step(after, PoolEventView::Connected(Ok(pool))) == (
                Some(pool),
                StepView::<()>::Done(Ok(())),
            )
        }),
{
}

} // verus!

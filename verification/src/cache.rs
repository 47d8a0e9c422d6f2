use vstd::prelude::*;
use crate::datecode::{all_digits, decimal_value, parse_decimal};
use crate::error::Error;

verus! {

/// The byte length that a `content-length` header announces, where the
/// header is present and is a number of 64 bits in decimal digits.
pub open spec fn header_size(header: Option<Seq<u8>>) -> Option<u64> {
    match header {
        None => None,
        Some(text) => if text.len() > 0 && all_digits(text) && decimal_value(text) <= u64::MAX {
            Some(decimal_value(text) as u64)
        } else {
            None
        },
    }
}

/// The size of the cached capture; a capture that is not there counts as
/// empty.
pub open spec fn cached_or_zero(cached: Option<u64>) -> u64 {
    match cached {
        Some(n) => n,
        None => 0,
    }
}

/// Reads the remote byte length off the header of a size probe. A header
/// that is absent or is no number is a protocol error.
pub fn parse_content_length(header: Option<&[u8]>) -> (r: Result<u64, Error>)
    ensures
        r.is_ok() <==> header_size(
            match header {
                Some(h) => Some(h@),
                None => None,
            },
        ).is_some(),
        r.is_ok() ==> Some(r.unwrap()) == header_size(
            match header {
                Some(h) => Some(h@),
                None => None,
            },
        ),
        r.is_err() ==> r.unwrap_err() == Error::Protocol,
{
    match header {
        None => Err(Error::Protocol),
        Some(text) => match parse_decimal(text) {
            Some(n) => Ok(n),
            None => Err(Error::Protocol),
        },
    }
}

/// Whether a capture has to be fetched: exactly when the remote length
/// differs from the size of the cached file, a missing file counting as
/// empty. Sizes alone decide; contents are not compared.
pub fn needs_download(remote_length: u64, cached_size: Option<u64>) -> (r: bool)
    ensures
        r == (remote_length != cached_or_zero(cached_size)),
{
    match cached_size {
        Some(n) => remote_length != n,
        None => remote_length != 0,
    }
}

/// Where the synchronisation of one capture stands.
#[derive(Clone, Copy, Debug, PartialEq, Eq, Structural)]
pub enum SyncState {
    /// Nothing was sent yet.
    Idle,
    /// The size probe is under way.
    Probing,
    /// The payload request is under way.
    Fetching,
    /// The payload is being written to the cache.
    Storing,
    /// The cache holds the capture.
    Done,
    /// The synchronisation was given up.
    Failed(Error),
}

/// What the transport or the file system reports back.
#[derive(Debug)]
pub enum SyncEvent {
    /// The synchronisation is to start.
    Begin,
    /// The size probe came back. `success` tells whether the connection
    /// stood and the status was a success; `cached_size` is the size of the
    /// cached file, if there is one.
    Probed { success: bool, content_length: Option<Vec<u8>>, cached_size: Option<u64> },
    /// The payload request came back.
    Fetched { success: bool, body: Vec<u8> },
    /// The write to the cache came back.
    Stored { success: bool },
}

/// What is to be done next.
#[derive(Debug)]
pub enum SyncAction {
    /// Send the size probe.
    Probe,
    /// Send the payload request.
    Fetch,
    /// Replace the cached file by exactly these bytes.
    Store(Vec<u8>),
    /// Nothing more is to be done.
    Finish,
}

/// An event, with its texts as sequences.
pub enum SyncEventView {
    Begin,
    Probed { success: bool, content_length: Option<Seq<u8>>, cached_size: Option<u64> },
    Fetched { success: bool, body: Seq<u8> },
    Stored { success: bool },
}

/// An action, with its payload as a sequence.
pub enum SyncActionView {
    Probe,
    Fetch,
    Store(Seq<u8>),
    Finish,
}

impl View for SyncEvent {
    type V = SyncEventView;

    open spec fn view(&self) -> SyncEventView {
        match *self {
            SyncEvent::Begin => SyncEventView::Begin,
            SyncEvent::Probed { success, content_length, cached_size } => SyncEventView::Probed {
                success,
                content_length: match content_length {
                    Some(h) => Some(h@),
                    None => None,
                },
                cached_size,
            },
            SyncEvent::Fetched { success, body } => SyncEventView::Fetched {
                success,
                body: body@,
            },
            SyncEvent::Stored { success } => SyncEventView::Stored { success },
        }
    }
}

impl View for SyncAction {
    type V = SyncActionView;

    open spec fn view(&self) -> SyncActionView {
        match *self {
            SyncAction::Probe => SyncActionView::Probe,
            SyncAction::Fetch => SyncActionView::Fetch,
            SyncAction::Store(bytes) => SyncActionView::Store(bytes@),
            SyncAction::Finish => SyncActionView::Finish,
        }
    }
}

/// The rule of the synchronisation of one capture: from a state and an
/// event to the next state and the action to take. An event that comes out
/// of turn ends the synchronisation with a protocol error; a settled state
/// stays as it is.
pub open spec fn next_step(state: SyncState, event: SyncEventView) -> (SyncState, SyncActionView) {
    match state {
        SyncState::Idle => match event {
            SyncEventView::Begin => (SyncState::Probing, SyncActionView::Probe),
            _ => (SyncState::Failed(Error::Protocol), SyncActionView::Finish),
        },
        SyncState::Probing => match event {
            SyncEventView::Probed { success, content_length, cached_size } => if !success {
                (SyncState::Failed(Error::Transport), SyncActionView::Finish)
            } else {
                match header_size(content_length) {
                    None => (SyncState::Failed(Error::Protocol), SyncActionView::Finish),
                    Some(n) => if n == cached_or_zero(cached_size) {
                        (SyncState::Done, SyncActionView::Finish)
                    } else {
                        (SyncState::Fetching, SyncActionView::Fetch)
                    },
                }
            },
            _ => (SyncState::Failed(Error::Protocol), SyncActionView::Finish),
        },
        SyncState::Fetching => match event {
            SyncEventView::Fetched { success, body } => if success {
                (SyncState::Storing, SyncActionView::Store(body))
            } else {
                (SyncState::Failed(Error::Transport), SyncActionView::Finish)
            },
            _ => (SyncState::Failed(Error::Protocol), SyncActionView::Finish),
        },
        SyncState::Storing => match event {
            SyncEventView::Stored { success } => if success {
                (SyncState::Done, SyncActionView::Finish)
            } else {
                (SyncState::Failed(Error::Filesystem), SyncActionView::Finish)
            },
            _ => (SyncState::Failed(Error::Protocol), SyncActionView::Finish),
        },
        SyncState::Done => (SyncState::Done, SyncActionView::Finish),
        SyncState::Failed(e) => (SyncState::Failed(e), SyncActionView::Finish),
    }
}

/// Takes one step of the synchronisation of one capture.
pub fn sync_step(state: SyncState, event: SyncEvent) -> (r: (SyncState, SyncAction))
    ensures
        (r.0, r.1@) == next_step(state, event@),
{
    match state {
        SyncState::Idle => match event {
            SyncEvent::Begin => (SyncState::Probing, SyncAction::Probe),
            _ => (SyncState::Failed(Error::Protocol), SyncAction::Finish),
        },
        SyncState::Probing => match event {
            SyncEvent::Probed { success, content_length, cached_size } => {
                if !success {
                    (SyncState::Failed(Error::Transport), SyncAction::Finish)
                } else {
                    let size = match &content_length {
                        Some(h) => parse_content_length(Some(h.as_slice())),
                        None => parse_content_length(None),
                    };
                    match size {
                        Err(_) => (SyncState::Failed(Error::Protocol), SyncAction::Finish),
                        Ok(n) => if needs_download(n, cached_size) {
                            (SyncState::Fetching, SyncAction::Fetch)
                        } else {
                            (SyncState::Done, SyncAction::Finish)
                        },
                    }
                }
            },
            _ => (SyncState::Failed(Error::Protocol), SyncAction::Finish),
        },
        SyncState::Fetching => match event {
            SyncEvent::Fetched { success, body } => if success {
                (SyncState::Storing, SyncAction::Store(body))
            } else {
                (SyncState::Failed(Error::Transport), SyncAction::Finish)
            },
            _ => (SyncState::Failed(Error::Protocol), SyncAction::Finish),
        },
        SyncState::Storing => match event {
            SyncEvent::Stored { success } => if success {
                (SyncState::Done, SyncAction::Finish)
            } else {
                (SyncState::Failed(Error::Filesystem), SyncAction::Finish)
            },
            _ => (SyncState::Failed(Error::Protocol), SyncAction::Finish),
        },
        SyncState::Done => (SyncState::Done, SyncAction::Finish),
        SyncState::Failed(e) => (SyncState::Failed(e), SyncAction::Finish),
    }
}

/// A payload request is issued from the size probe alone, and only on a
/// probe that succeeded and announced a length other than the cached size.
pub proof fn lemma_fetch_only_on_mismatch(state: SyncState, event: SyncEventView)
    requires
        next_step(state, event).1 == SyncActionView::Fetch,
    ensures
        state == SyncState::Probing,
        next_step(state, event).0 == SyncState::Fetching,
        event is Probed,
        event->Probed_success,
        header_size(event->content_length).is_some(),
        header_size(event->content_length).unwrap() != cached_or_zero(event->cached_size),
{
}

/// Where the announced length equals the cached size, the probe settles the
/// capture, and nothing that follows issues a payload request.
pub proof fn lemma_equal_size_issues_no_fetch(
    content_length: Option<Seq<u8>>,
    cached_size: Option<u64>,
    later: SyncEventView,
)
    requires
        header_size(content_length) == Some(cached_or_zero(cached_size)),
    ensures
        next_step(
            SyncState::Probing,
            SyncEventView::Probed { success: true, content_length, cached_size },
        ) == (SyncState::Done, SyncActionView::Finish),
        next_step(SyncState::Done, later) == (SyncState::Done, SyncActionView::Finish),
{
}

/// Where the announced length differs from the cached size, the probe is
/// answered by one payload request; its body is what is stored, whole; and
/// no state after the request issues another.
pub proof fn lemma_mismatch_fetches_once(
    content_length: Option<Seq<u8>>,
    cached_size: Option<u64>,
    body: Seq<u8>,
    later: SyncEventView,
)
    requires
        header_size(content_length).is_some(),
        header_size(content_length).unwrap() != cached_or_zero(cached_size),
    ensures
        next_step(
            SyncState::Probing,
            SyncEventView::Probed { success: true, content_length, cached_size },
        ) == (SyncState::Fetching, SyncActionView::Fetch),
        next_step(SyncState::Fetching, SyncEventView::Fetched { success: true, body }) == (
            SyncState::Storing,
            SyncActionView::Store(body),
        ),
        next_step(SyncState::Storing, SyncEventView::Stored { success: true }) == (
            SyncState::Done,
            SyncActionView::Finish,
        ),
        next_step(SyncState::Fetching, later).1 != SyncActionView::Fetch,
        next_step(SyncState::Storing, later).1 != SyncActionView::Fetch,
        next_step(SyncState::Done, later).1 != SyncActionView::Fetch,
{
}

} // verus!

//! The native-driver transport: the load-once registry of driver bindings
//! keyed by driver variant, and the decision logic of a native connection —
//! status interpretation and termination-character programming.

use vstd::prelude::*;

use crate::address::{InstAddr, VisaAddress, VisaType};
use crate::err::{Error, ErrorSpec};
use crate::termination_bytes::{term_bytes, TerminationBytes};
use crate::text::{ascii_chars, ascii_to_string, dec_str_int, lemma_digits_ascii, push_dec_i32};
use crate::visa::{Binary, BinarySpec};

verus! {

/// Largest receive buffer a native connection will grow to, in bytes.
pub const MAXIMUM_BUFFER_SIZE: usize = 50000000;

/// Default receive buffer size, in bytes.
pub const DEFAULT_BUFFER_SIZE: usize = 4096;

/// Buffer handed to the driver's status-description entry point.
pub const ERR_MSG_BUFFER_SIZE: usize = 512;

/// A loaded driver binding: the top-level session the driver opened. The
/// library handle itself lives with the caller, keyed by the same variant.
#[derive(Clone, Copy, Debug, PartialEq, Eq, Structural)]
pub struct DriverBinding {
    pub session: u32,
}

/// Spec-level shape of a [`LoadEvent`].
pub enum LoadEventSpec {
    Opened { session: u32, status: i32 },
    LoadFailed { message: Seq<char> },
}

/// What a load attempt came back with: the library loaded and the driver's
/// session-open entry point answered, or the library could not be loaded.
pub enum LoadEvent {
    Opened { session: u32, status: i32 },
    LoadFailed { message: String },
}

impl View for LoadEvent {
    type V = LoadEventSpec;

    open spec fn view(&self) -> LoadEventSpec {
        match self {
            LoadEvent::Opened { session, status } => LoadEventSpec::Opened {
                session: *session,
                status: *status,
            },
            LoadEvent::LoadFailed { message } => LoadEventSpec::LoadFailed { message: message@ },
        }
    }
}

pub open spec fn out_view(o: Result<DriverBinding, Error>) -> Result<DriverBinding, ErrorSpec> {
    match o {
        Ok(b) => Ok(b),
        Err(e) => Err(e@),
    }
}

/// The message memoized when the library loads but no session instantiates.
pub open spec fn open_session_msg(status: i32) -> Seq<char> {
    "visa session did not instantiate properly. visa dll exists but there might be a missing dependancy. status error code: "@
        + ascii_chars(dec_str_int(status as int))
}

/// The outcome recorded for a load event: a nonzero session is the shared
/// binding; a zero session and a failed load are both memoized failures.
pub open spec fn spec_record(ev: LoadEventSpec) -> Result<DriverBinding, ErrorSpec> {
    match ev {
        LoadEventSpec::Opened { session, status } => {
            if session != 0 {
                Ok(DriverBinding { session })
            } else {
                Err(ErrorSpec::OpenSession { msg: open_session_msg(status) })
            }
        },
        LoadEventSpec::LoadFailed { message } => Err(ErrorSpec::Binary { msg: message }),
    }
}

/// The first cached outcome for a variant, scanning front to back.
pub open spec fn find_outcome(
    entries: Seq<(Binary, Result<DriverBinding, Error>)>,
    k: BinarySpec,
) -> Option<Result<DriverBinding, ErrorSpec>>
    decreases entries.len(),
{
    if entries.len() == 0 {
        None
    } else if entries[0].0@ == k {
        Some(out_view(entries[0].1))
    } else {
        find_outcome(entries.drop_first(), k)
    }
}

/// Appending an entry changes nothing a scan already found.
pub proof fn lemma_find_outcome_push(
    entries: Seq<(Binary, Result<DriverBinding, Error>)>,
    e: (Binary, Result<DriverBinding, Error>),
    k: BinarySpec,
)
    ensures
        find_outcome(entries.push(e), k) == (match find_outcome(entries, k) {
            Some(o) => Some(o),
            None => {
                if e.0@ == k {
                    Some(out_view(e.1))
                } else {
                    None
                }
            },
        }),
    decreases entries.len(),
{
    if entries.len() == 0 {
        assert(entries.push(e)[0] == e);
        assert(entries.push(e).drop_first() =~= Seq::<(Binary, Result<DriverBinding, Error>)>::empty());
        assert(find_outcome(Seq::<(Binary, Result<DriverBinding, Error>)>::empty(), k) is None);
    } else {
        assert(entries.push(e)[0] == entries[0]);
        assert(entries.push(e).drop_first() =~= entries.drop_first().push(e));
        lemma_find_outcome_push(entries.drop_first(), e, k);
    }
}

/// What a lookup found: the memoized outcome, or leave to load.
pub enum LoadStep {
    Cached(Result<DriverBinding, Error>),
    NeedLoad,
}

/// The process-wide, load-once cache of driver bindings, keyed by driver
/// variant. On a hit — success or failure — the memoized outcome is
/// returned; a load is never retried, because a failed load reflects a
/// missing system install, not a transient fault. The caller holds the cache
/// behind its process-wide lock and performs the load itself on a miss.
pub struct BinaryRegistry {
    pub entries: Vec<(Binary, Result<DriverBinding, Error>)>,
}

impl BinaryRegistry {
    pub open spec fn contains_key(&self, k: BinarySpec) -> bool {
        find_outcome(self.entries@, k) is Some
    }

    pub open spec fn outcome_of(&self, k: BinarySpec) -> Result<DriverBinding, ErrorSpec> {
        match find_outcome(self.entries@, k) {
            Some(o) => o,
            None => Err(ErrorSpec::Timeout),
        }
    }

    /// An empty cache: no variant has been attempted.
    pub fn new() -> (r: BinaryRegistry)
        ensures
            r.entries@.len() == 0,
            forall|k: BinarySpec| !r.contains_key(k),
    {
        BinaryRegistry { entries: Vec::new() }
    }

    /// The memoized outcome for a variant, or the word that it must be
    /// loaded now: a variant once recorded is never loaded again.
    pub fn begin_load(&self, bin: &Binary) -> (r: LoadStep)
        ensures
            match r {
                LoadStep::Cached(o) => self.contains_key(bin@) && out_view(o) == self.outcome_of(
                    bin@,
                ),
                LoadStep::NeedLoad => !self.contains_key(bin@),
            },
    {
        let ghost whole = self.entries@;
        proof {
            assert(self.entries@.skip(0) =~= self.entries@);
        }
        let mut i: usize = 0;
        while i < self.entries.len()
            invariant
                i <= self.entries@.len(),
                whole == self.entries@,
                find_outcome(whole, bin@) == find_outcome(self.entries@.skip(i as int), bin@),
            decreases self.entries.len() - i,
        {
            let hit = crate::visa::binary_eq(&self.entries[i].0, bin);
            proof {
                assert(self.entries@.skip(i as int)[0] == self.entries@[i as int]);
            }
            if hit {
                let o = dup_outcome(&self.entries[i].1);
                return LoadStep::Cached(o);
            }
            proof {
                assert(self.entries@.skip(i as int).drop_first() =~= self.entries@.skip(i + 1));
            }
            i = i + 1;
        }
        proof {
            assert(self.entries@.skip(self.entries@.len() as int) =~= Seq::<
                (Binary, Result<DriverBinding, Error>),
            >::empty());
        }
        LoadStep::NeedLoad
    }

    /// Record what a load attempt came back with; the memoized outcome is
    /// fixed for the life of the process.
    pub fn record_load(&mut self, bin: Binary, event: LoadEvent) -> (r: Result<
        DriverBinding,
        Error,
    >)
        requires
            !old(self).contains_key(bin@),
        ensures
            final(self).contains_key(bin@),
            final(self).outcome_of(bin@) == spec_record(event@),
            out_view(r) == spec_record(event@),
            forall|k: BinarySpec|
                k != bin@ ==> #[trigger] final(self).contains_key(k) == old(self).contains_key(k),
            forall|k: BinarySpec|
                k != bin@ && old(self).contains_key(k) ==> #[trigger] final(self).outcome_of(k)
                    == old(self).outcome_of(k),
    {
        let outcome: Result<DriverBinding, Error> = match event {
            LoadEvent::Opened { session, status } => {
                if session != 0 {
                    Ok(DriverBinding { session })
                } else {
                    let mut digits: Vec<u8> = Vec::new();
                    push_dec_i32(&mut digits, status);
                    proof {
                        lemma_int_str_ascii(status as int);
                    }
                    let num = ascii_to_string(digits);
                    let msg = String::from_str(
                        "visa session did not instantiate properly. visa dll exists but there might be a missing dependancy. status error code: ",
                    ).concat(num.as_str());
                    Err(Error::OpenSessionError(msg))
                }
            },
            LoadEvent::LoadFailed { message } => Err(Error::BinaryError(message)),
        };
        let r = dup_outcome(&outcome);
        let ghost before = self.entries@;
        let ghost entry_view = out_view(outcome);
        proof {
            assert(out_view(r) == spec_record(event@));
        }
        self.entries.push((bin, outcome));
        proof {
            assert forall|k: BinarySpec| true implies find_outcome(self.entries@, k) == (
            match find_outcome(before, k) {
                Some(o) => Some(o),
                None => {
                    if self.entries@.last().0@ == k {
                        Some(entry_view)
                    } else {
                        None::<Result<DriverBinding, ErrorSpec>>
                    }
                },
            }) by {
                lemma_find_outcome_push(before, self.entries@.last(), k);
            }
        }
        r
    }
}

/// The signed decimal text of a status code is plain ASCII.
proof fn lemma_int_str_ascii(v: int)
    ensures
        crate::text::is_ascii_bytes(dec_str_int(v)),
{
    if v < 0 {
        crate::text::lemma_dec_str((-v) as nat);
        lemma_digits_ascii(crate::text::dec_str((-v) as nat));
        crate::text::lemma_ascii_app(seq![45u8], crate::text::dec_str((-v) as nat));
    } else {
        crate::text::lemma_dec_str(v as nat);
        lemma_digits_ascii(crate::text::dec_str(v as nat));
    }
}

fn dup_outcome(o: &Result<DriverBinding, Error>) -> (r: Result<DriverBinding, Error>)
    ensures
        out_view(r) == out_view(*o),
{
    match o {
        Ok(b) => Ok(*b),
        Err(e) => Err(e.duplicate()),
    }
}

// ---------------------------------------------------------------------------
// The native connection
// ---------------------------------------------------------------------------
/// The state of a native-driver connection. The driver handle lives with the
/// caller; this state carries everything the decisions depend on.
pub struct VisaConn {
    pub bin: Binary,
    pub address: VisaAddress,
    pub buffer_size: usize,
    pub session: u32,
    pub term_string: Option<TerminationBytes>,
    pub frame_size: Option<usize>,
    pub is_term_char_attr_set: bool,
    pub timeout_ms: u64,
}

/// How a termination policy is programmed into the driver: disable the
/// termination character entirely, or program a byte and enable detection.
#[derive(Clone, Copy, Debug, PartialEq, Eq, Structural)]
pub enum TermPlan {
    Disable,
    Program { last_byte: u8 },
}

impl VisaConn {
    /// GPIB has its own end-of-transmission signaling and may carry binary
    /// payloads where a data byte would false-positive as a terminator, so
    /// hardware termination-character detection stays off for it.
    pub fn should_avoid_term_char(visa_type: VisaType) -> (r: bool)
        ensures
            r == (visa_type == VisaType::GPIB),
    {
        match visa_type {
            VisaType::GPIB => true,
            _ => false,
        }
    }

    /// What to program into the driver for a termination policy: GPIB always
    /// disables detection; an empty terminator disables it; otherwise the
    /// last byte of the policy is programmed and detection enabled.
    pub fn termination_plan(visa_type: VisaType, term: &TerminationBytes) -> (r: TermPlan)
        ensures
            visa_type == VisaType::GPIB ==> r == TermPlan::Disable,
            visa_type != VisaType::GPIB && term_bytes(*term).len() == 0 ==> r == TermPlan::Disable,
            visa_type != VisaType::GPIB && term_bytes(*term).len() > 0 ==> r == (TermPlan::Program {
                last_byte: term_bytes(*term).last(),
            }),
    {
        if VisaConn::should_avoid_term_char(visa_type) {
            return TermPlan::Disable;
        }
        let bytes = term.bytes();
        if bytes.len() == 0 {
            TermPlan::Disable
        } else {
            TermPlan::Program { last_byte: bytes[bytes.len() - 1] }
        }
    }

    /// A negative driver status on connect becomes a connection failure that
    /// carries the driver's own description when one was retrievable.
    pub fn connect_status(status: i32, description: Option<String>, fallback: &str) -> (r: Result<
        (),
        Error,
    >)
        ensures
            match r {
                Ok(()) => status >= 0,
                Err(e) => status < 0 && (match description {
                    Some(d) => e@ == (ErrorSpec::ConnectionFailed { msg: d@ }),
                    None => e@ == (ErrorSpec::ConnectionFailed { msg: fallback@ }),
                }),
            },
    {
        if status >= 0 {
            Ok(())
        } else {
            match description {
                Some(d) => Err(Error::ConnectionFailed(d)),
                None => Err(Error::ConnectionFailed(String::from_str(fallback))),
            }
        }
    }

    /// A negative driver status on an already open connection becomes a
    /// function failure; the connection stays open and the setting unapplied.
    pub fn attribute_status(status: i32, description: Option<String>, fallback: &str) -> (r:
        Result<(), Error>)
        ensures
            match r {
                Ok(()) => status >= 0,
                Err(e) => status < 0 && (match description {
                    Some(d) => e@ == (ErrorSpec::FunctionFailure { msg: d@ }),
                    None => e@ == (ErrorSpec::FunctionFailure { msg: fallback@ }),
                }),
            },
    {
        if status >= 0 {
            Ok(())
        } else {
            match description {
                Some(d) => Err(Error::FunctionFailure(d)),
                None => Err(Error::FunctionFailure(String::from_str(fallback))),
            }
        }
    }

    /// The owning address.
    pub fn address(&self) -> (r: InstAddr)
        ensures
            r matches InstAddr::Visa(a) && a@ == self.address@ && (self.address.wf() ==> a.wf()),
    {
        InstAddr::Visa(self.address.duplicate())
    }

    /// Note a timeout as applied, after the driver accepted it; it governs
    /// reads and writes alike.
    pub fn set_timeout(&mut self, timeout_ms: u64)
        ensures
            final(self).timeout_ms == timeout_ms,
            final(self).bin == old(self).bin,
            final(self).address == old(self).address,
            final(self).buffer_size == old(self).buffer_size,
            final(self).session == old(self).session,
            final(self).term_string == old(self).term_string,
            final(self).frame_size == old(self).frame_size,
            final(self).is_term_char_attr_set == old(self).is_term_char_attr_set,
    {
        self.timeout_ms = timeout_ms;
    }

    /// Note a termination policy as applied, after the driver accepted it.
    pub fn note_termination(&mut self, term: TerminationBytes, attr_set: bool)
        ensures
            final(self).term_string == Some(term),
            final(self).is_term_char_attr_set == attr_set,
            final(self).bin == old(self).bin,
            final(self).address == old(self).address,
            final(self).buffer_size == old(self).buffer_size,
            final(self).session == old(self).session,
            final(self).frame_size == old(self).frame_size,
            final(self).timeout_ms == old(self).timeout_ms,
    {
        self.term_string = Some(term);
        self.is_term_char_attr_set = attr_set;
    }
}

} // verus!

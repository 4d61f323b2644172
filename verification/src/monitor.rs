//! The scan view's account of a running scan: each progress event of the
//! scan engine updates its counters and adds a line to the live log.

use vstd::prelude::*;

use crate::text::{chars_of, decimal, decimal_chars, hex_fixed, push_all, push_hex_fixed};
use crate::ui_state::{log_after, LogLevel, ScanLog};

verus! {

/// A progress event of the scan engine, as plain values.
pub enum ScanEvent {
    FileDiscovered { path: String },
    FileHashed { path: String, phash: u64 },
    ComparisonStarted { total_pairs: usize },
    /// `similarity_pct` is the similarity in percent, already written with
    /// one decimal.
    DuplicateFound { file_a: String, file_b: String, similarity_pct: String },
    ScanComplete { files: usize, duplicates: usize },
    Failed { path: String, msg: String },
}

/// The state of the scan view while a scan runs.
pub struct ScanMonitor {
    pub log: ScanLog,
    pub files_found: usize,
    pub duplicates_found: usize,
    pub complete: bool,
}

/// The severity of the log line for an event.
pub open spec fn event_level(e: ScanEvent) -> LogLevel {
    match e {
        ScanEvent::Failed { .. } => LogLevel::Error,
        _ => LogLevel::Info,
    }
}

/// The text of the log line for an event.
pub open spec fn event_text(e: ScanEvent) -> Seq<char> {
    match e {
        ScanEvent::FileDiscovered { path } => "found   "@ + path@,
        ScanEvent::FileHashed { path, phash } => "hashed  "@ + path@ + "  [0x"@ + hex_fixed(
            phash as nat,
            16,
        ) + "]"@,
        ScanEvent::ComparisonStarted { total_pairs } => "comparing "@ + decimal(total_pairs as nat)
            + " pairs\u{2026}"@,
        ScanEvent::DuplicateFound { file_a, file_b, similarity_pct } => "MATCH  "@ + similarity_pct@
            + "%  "@ + file_a@ + "  \u{2194}  "@ + file_b@,
        ScanEvent::ScanComplete { files, duplicates } => "done \u{2014} "@ + decimal(files as nat)
            + " files, "@ + decimal(duplicates as nat) + " duplicate groups"@,
        ScanEvent::Failed { path, msg } => "error "@ + path@ + ": "@ + msg@,
    }
}

/// The event can be counted: a counter it raises is below its limit.
pub open spec fn countable(m: ScanMonitor, e: ScanEvent) -> bool {
    match e {
        ScanEvent::FileDiscovered { .. } => m.files_found < usize::MAX,
        ScanEvent::DuplicateFound { .. } => m.duplicates_found < usize::MAX,
        _ => true,
    }
}

fn push_lit(s: &mut String, lit: &str)
    ensures
        final(s)@ == old(s)@ + lit@,
{
    push_all(s, &chars_of(lit));
}

fn push_decimal(s: &mut String, n: usize)
    ensures
        final(s)@ == old(s)@ + decimal(n as nat),
{
    push_all(s, &decimal_chars(n as u128));
}

fn event_message(e: &ScanEvent) -> (r: String)
    ensures
        r@ == event_text(*e),
{
    let mut s = String::new();
    match e {
        ScanEvent::FileDiscovered { path } => {
            push_lit(&mut s, "found   ");
            push_lit(&mut s, path.as_str());
        },
        ScanEvent::FileHashed { path, phash } => {
            push_lit(&mut s, "hashed  ");
            push_lit(&mut s, path.as_str());
            push_lit(&mut s, "  [0x");
            push_hex_fixed(&mut s, *phash as u128, 16);
            push_lit(&mut s, "]");
        },
        ScanEvent::ComparisonStarted { total_pairs } => {
            push_lit(&mut s, "comparing ");
            push_decimal(&mut s, *total_pairs);
            push_lit(&mut s, " pairs\u{2026}");
        },
        ScanEvent::DuplicateFound { file_a, file_b, similarity_pct } => {
            push_lit(&mut s, "MATCH  ");
            push_lit(&mut s, similarity_pct.as_str());
            push_lit(&mut s, "%  ");
            push_lit(&mut s, file_a.as_str());
            push_lit(&mut s, "  \u{2194}  ");
            push_lit(&mut s, file_b.as_str());
        },
        ScanEvent::ScanComplete { files, duplicates } => {
            push_lit(&mut s, "done \u{2014} ");
            push_decimal(&mut s, *files);
            push_lit(&mut s, " files, ");
            push_decimal(&mut s, *duplicates);
            push_lit(&mut s, " duplicate groups");
        },
        ScanEvent::Failed { path, msg } => {
            push_lit(&mut s, "error ");
            push_lit(&mut s, path.as_str());
            push_lit(&mut s, ": ");
            push_lit(&mut s, msg.as_str());
        },
    }
    proof {
        assert(s@ =~= event_text(*e));
    }
    s
}

impl ScanMonitor {
    /// The view before a scan: nothing counted, nothing logged.
    pub fn new() -> (r: Self)
        ensures
            r.log.entries@.len() == 0,
            r.files_found == 0,
            r.duplicates_found == 0,
            !r.complete,
    {
        ScanMonitor { log: ScanLog::new(), files_found: 0, duplicates_found: 0, complete: false }
    }

    /// Takes in one progress event: a discovered file and a found duplicate
    /// are counted, a finished scan marks the view complete, and every event
    /// adds its line (see [`event_text`]) to the log.
    pub fn apply(&mut self, e: ScanEvent)
        requires
            countable(*old(self), e),
        ensures
            final(self).files_found == old(self).files_found + (if e is FileDiscovered {
                1int
            } else {
                0int
            }),
            final(self).duplicates_found == old(self).duplicates_found + (if e is DuplicateFound {
                1int
            } else {
                0int
            }),
            final(self).complete == (old(self).complete || e is ScanComplete),
            final(self).log.entries@ == log_after(
                old(self).log.entries@,
                final(self).log.entries@.last(),
            ),
            final(self).log.entries@.last().level == event_level(e),
            final(self).log.entries@.last().message@ == event_text(e),
    {
        let text = event_message(&e);
        let level = match &e {
            ScanEvent::Failed { .. } => LogLevel::Error,
            _ => LogLevel::Info,
        };
        match &e {
            ScanEvent::FileDiscovered { .. } => {
                self.files_found = self.files_found + 1;
            },
            ScanEvent::DuplicateFound { .. } => {
                self.duplicates_found = self.duplicates_found + 1;
            },
            ScanEvent::ScanComplete { .. } => {
                self.complete = true;
            },
            _ => {},
        }
        self.log.push_log(level, text);
    }
}

} // verus!

//! Error messages and where they are shown: fatal ones in a modal dialog,
//! warnings in a banner, hints in toasts.
use vstd::prelude::*;

verus! {

/// How grave an error is.
#[derive(Debug, Clone, Copy, PartialEq, Eq, Structural)]
pub enum ErrorSeverity {
    /// Blocks everything else in a modal dialog.
    Fatal,
    /// Shows in a banner and blocks nothing.
    Warning,
    /// Shows in a toast.
    Info,
}

/// Where an error comes from.
#[derive(Debug, Clone, Copy, PartialEq, Eq, Structural)]
pub enum ErrorSource {
    Agent,
    Startup,
    Validation,
    General,
}

/// One error message.
#[derive(Debug, Clone)]
pub struct ErrorInfo {
    pub code: String,
    pub title: String,
    pub message: String,
    pub detail: Option<String>,
    pub severity: ErrorSeverity,
    pub source: ErrorSource,
    pub timestamp: String,
}

pub open spec fn digit_at(s: Seq<char>, i: int) -> bool {
    '0' <= s[i] <= '9'
}

/// A time of day as two digits each for hour, minute and second.
pub open spec fn clock_text(s: Seq<char>) -> bool {
    &&& s.len() == 8
    &&& digit_at(s, 0) && digit_at(s, 1) && s[2] == ':'
    &&& digit_at(s, 3) && digit_at(s, 4) && s[5] == ':'
    &&& digit_at(s, 6) && digit_at(s, 7)
}

/// The local time of day: `chrono::Local::now` in the format `%H:%M:%S` of
/// `DateTime::format`, whose items are two digits wide and padded with zeros.
/// Which time it is stays open.
#[verifier::external_body]
pub(crate) fn local_clock() -> (r: String)
    ensures
        clock_text(r@),
{
    chrono::Local::now().format("%H:%M:%S").to_string()
}

/// The message was made of these parts.
pub open spec fn made_of(
    e: ErrorInfo,
    code: Seq<char>,
    title: Seq<char>,
    message: Seq<char>,
    severity: ErrorSeverity,
    source: ErrorSource,
) -> bool {
    &&& e.code@ == code
    &&& e.title@ == title
    &&& e.message@ == message
    &&& e.detail is None
    &&& e.severity == severity
    &&& e.source == source
}

impl ErrorInfo {
    /// A message without details, stamped with the present time.
    pub fn new(code: &str, title: &str, message: &str, severity: ErrorSeverity, source: ErrorSource) -> (r: ErrorInfo)
        ensures
            made_of(r, code@, title@, message@, severity, source),
            clock_text(r.timestamp@),
    {
        ErrorInfo::at(code, title, message, severity, source, local_clock())
    }

    /// A message without details, stamped with a given time.
    pub fn at(
        code: &str,
        title: &str,
        message: &str,
        severity: ErrorSeverity,
        source: ErrorSource,
        timestamp: String,
    ) -> (r: ErrorInfo)
        ensures
            made_of(r, code@, title@, message@, severity, source),
            r.timestamp == timestamp,
    {
        ErrorInfo {
            code: code.to_owned(),
            title: title.to_owned(),
            message: message.to_owned(),
            detail: None,
            severity,
            source,
            timestamp,
        }
    }

    /// The message with details.
    pub fn with_detail(self, detail: &str) -> (r: ErrorInfo)
        ensures
            r.detail is Some,
            r.detail->0@ == detail@,
            r == (ErrorInfo { detail: r.detail, ..self }),
    {
        ErrorInfo {
            code: self.code,
            title: self.title,
            message: self.message,
            detail: Some(detail.to_owned()),
            severity: self.severity,
            source: self.source,
            timestamp: self.timestamp,
        }
    }
}

/// The label of a banner.
pub open spec fn banner_label_text(severity: ErrorSeverity) -> Seq<char> {
    match severity {
        ErrorSeverity::Fatal => "ERROR"@,
        ErrorSeverity::Warning => "WARNING"@,
        ErrorSeverity::Info => "INFO"@,
    }
}

/// The label of a banner.
pub fn banner_label(severity: ErrorSeverity) -> (r: &'static str)
    ensures
        r@ == banner_label_text(severity),
{
    match severity {
        ErrorSeverity::Fatal => "ERROR",
        ErrorSeverity::Warning => "WARNING",
        ErrorSeverity::Info => "INFO",
    }
}

/// The style class of a banner: warnings have one of their own.
pub fn banner_class(severity: ErrorSeverity) -> (r: &'static str)
    ensures
        r@ == if severity == ErrorSeverity::Warning {
            "error-banner error-banner--warn"@
        } else {
            "error-banner"@
        },
{
    if severity == ErrorSeverity::Warning {
        "error-banner error-banner--warn"
    } else {
        "error-banner"
    }
}

/// The messages that are on show.
#[derive(Debug, Clone)]
pub struct ErrorSignal {
    pub modal: Option<ErrorInfo>,
    pub banner: Option<ErrorInfo>,
    pub toasts: Vec<ErrorInfo>,
}

impl ErrorSignal {
    /// Nothing is on show.
    pub open spec fn clear(self) -> bool {
        self.modal is None && self.banner is None && self.toasts@.len() == 0
    }

    /// What `self` shows after `error` was pushed: the modal dialog and the
    /// banner show the latest message, toasts pile up.
    pub open spec fn shows_after(self, before: ErrorSignal, error: ErrorInfo) -> bool {
        match error.severity {
            ErrorSeverity::Fatal => self.modal == Some(error) && self.banner == before.banner && self.toasts@
                == before.toasts@,
            ErrorSeverity::Warning => self.modal == before.modal && self.banner == Some(error) && self.toasts@
                == before.toasts@,
            ErrorSeverity::Info => self.modal == before.modal && self.banner == before.banner && self.toasts@
                == before.toasts@.push(error),
        }
    }

    pub fn new() -> (r: ErrorSignal)
        ensures
            r.clear(),
    {
        ErrorSignal { modal: None, banner: None, toasts: Vec::new() }
    }

    /// Shows a message where its severity belongs.
    pub fn push(&mut self, error: ErrorInfo)
        ensures
            final(self).shows_after(*old(self), error),
    {
        match error.severity {
            ErrorSeverity::Fatal => {
                self.modal = Some(error);
            },
            ErrorSeverity::Warning => {
                self.banner = Some(error);
            },
            ErrorSeverity::Info => {
                self.toasts.push(error);
            },
        }
    }

    pub fn dismiss_modal(&mut self)
        ensures
            final(self).modal is None,
            final(self).banner == old(self).banner,
            final(self).toasts@ == old(self).toasts@,
    {
        self.modal = None;
    }

    pub fn dismiss_banner(&mut self)
        ensures
            final(self).banner is None,
            final(self).modal == old(self).modal,
            final(self).toasts@ == old(self).toasts@,
    {
        self.banner = None;
    }

    /// Removes toast `index`; does nothing where there is none.
    pub fn dismiss_toast(&mut self, index: usize)
        ensures
            final(self).modal == old(self).modal,
            final(self).banner == old(self).banner,
            final(self).toasts@ == if index < old(self).toasts@.len() {
                old(self).toasts@.remove(index as int)
            } else {
                old(self).toasts@
            },
    {
        if index < self.toasts.len() {
            self.toasts.remove(index);
        }
    }
}

/// Dismissing the last toast undoes the hint that was pushed last.
pub proof fn dismissing_the_last_toast_undoes_a_hint(before: ErrorSignal, after: ErrorSignal, error: ErrorInfo)
    requires
        after.shows_after(before, error),
        error.severity == ErrorSeverity::Info,
    ensures
        after.toasts@.len() == before.toasts@.len() + 1,
        after.toasts@.remove(before.toasts@.len() as int) == before.toasts@,
        after.modal == before.modal,
        after.banner == before.banner,
{
    assert(after.toasts@.remove(before.toasts@.len() as int) =~= before.toasts@);
}

/// A message is shown by its weight: what is fatal in a dialog, a warning in the banner, and a
/// hint behind the hints that are there; the others stay as they were.
pub proof fn a_message_is_shown_by_its_weight(before: ErrorSignal, after: ErrorSignal, error: ErrorInfo)
    requires
        after.shows_after(before, error),
    ensures
        error.severity == ErrorSeverity::Fatal ==> after.modal == Some(error),
        error.severity == ErrorSeverity::Warning ==> after.banner == Some(error),
        error.severity == ErrorSeverity::Info ==> after.toasts@.len() == before.toasts@.len() + 1 && after.toasts@.last() == error,
        error.severity != ErrorSeverity::Fatal ==> after.modal == before.modal,
        error.severity != ErrorSeverity::Warning ==> after.banner == before.banner,
        error.severity != ErrorSeverity::Info ==> after.toasts@ == before.toasts@,
        forall|i: int| 0 <= i < before.toasts@.len() ==> #[trigger] after.toasts@[i] == before.toasts@[i],
{
}

} // verus!

//! The modification-time column.
use vstd::prelude::*;
use crate::temporal::{render_pattern, spec_date, Temporal, MAX_TIMESTAMP};
use crate::text::{chars_of, push_all, string_of};

verus! {

/// Settings of the time column: whether it is shown and the pattern of its text.
#[derive(Debug, Clone, PartialEq, Eq)]
pub struct StatsTemporal {
    pub enabled: bool,
    pub format_pattern: String,
}

/// Every timestamp that `ts` may hold can be formatted.
pub open spec fn timestamp_ok(ts: Option<u64>) -> bool {
    match ts {
        Some(t) => t <= MAX_TIMESTAMP,
        None => true,
    }
}

impl StatsTemporal {
    /// The text of a timestamp: nothing when the column is off, there is no
    /// timestamp, or the pattern gives nothing; otherwise the formatted time in
    /// square brackets.
    pub open spec fn spec_format_timestamp(self, timestamp: Option<u64>) -> Seq<char> {
        if !self.enabled {
            Seq::empty()
        } else {
            match timestamp {
                None => Seq::empty(),
                Some(t) => {
                    let f = render_pattern(self.format_pattern@, spec_date(t));
                    if f.len() == 0 { Seq::empty() } else { seq!['['] + f + seq![']'] }
                },
            }
        }
    }

    pub fn new() -> (r: Self)
        ensures
            r.enabled,
            r.format_pattern@ == seq!['Y', 'Y', 'Y', 'Y', '-', 'M', 'M', '-', 'M', 'D', ' ', 'h', 'h', ':', 'm', 'm'],
    {
        Self::default()
    }

    pub fn enabled(self, enabled: bool) -> (r: Self)
        ensures
            r.enabled == enabled,
            r.format_pattern == self.format_pattern,
    {
        let mut s = self;
        s.enabled = enabled;
        s
    }

    /// Sets the pattern of the time text.
    pub fn pattern(self, pattern: &str) -> (r: Self)
        ensures
            r.enabled == self.enabled,
            r.format_pattern@ == pattern@,
    {
        let mut s = self;
        s.format_pattern = string_of(&chars_of(pattern));
        s
    }

    /// Appends the text of a timestamp.
    pub fn push_timestamp(&self, out: &mut Vec<char>, timestamp: Option<u64>)
        requires
            self.enabled ==> timestamp_ok(timestamp),
        ensures
            final(out)@ == old(out)@ + self.spec_format_timestamp(timestamp),
    {
        if self.enabled == false {
            assert(out@ =~= old(out)@ + self.spec_format_timestamp(timestamp));
            return;
        }
        let ts = match timestamp {
            Some(t) => t,
            None => {
                assert(out@ =~= old(out)@ + self.spec_format_timestamp(timestamp));
                return;
            },
        };
        let formatted = Temporal::format(ts, self.format_pattern.as_str());
        let f = chars_of(formatted.as_str());
        if f.len() == 0 {
            assert(out@ =~= old(out)@ + self.spec_format_timestamp(timestamp));
            return;
        }
        out.push('[');
        push_all(out, &f);
        out.push(']');
        assert(out@ =~= old(out)@ + self.spec_format_timestamp(timestamp));
    }

    /// Formats an optional UNIX timestamp in seconds and encloses it in `[]`.
    pub fn format_timestamp(&self, timestamp: Option<u64>) -> (r: String)
        requires
            self.enabled ==> timestamp_ok(timestamp),
        ensures
            r@ == self.spec_format_timestamp(timestamp),
    {
        let mut out: Vec<char> = Vec::new();
        self.push_timestamp(&mut out, timestamp);
        assert(out@ =~= self.spec_format_timestamp(timestamp));
        string_of(&out)
    }
}

impl Default for StatsTemporal {
    fn default() -> (r: Self)
        ensures
            r.enabled,
            r.format_pattern@ == seq!['Y', 'Y', 'Y', 'Y', '-', 'M', 'M', '-', 'M', 'D', ' ', 'h', 'h', ':', 'm', 'm'],
    {
        let p: Vec<char> = vec!['Y', 'Y', 'Y', 'Y', '-', 'M', 'M', '-', 'M', 'D', ' ', 'h', 'h', ':', 'm', 'm'];
        StatsTemporal { enabled: true, format_pattern: string_of(&p) }
    }
}

} // verus!

//! The tagged-variant entry type stored by the container, and the plain-value
//! timestamp it uses for datetime payloads.

use vstd::prelude::*;
use vstd::string::StringExecFns;

verus! {

use crate::IdoKeyT;

/// Discriminator for the payload variant an item currently holds.
#[derive(Debug, Copy, Clone, PartialEq, Eq, Structural)]
pub enum IdoItemType {
    STRING,
    INTEGER,
    FLOAT,
    DATETIME,
    ARRAY,
}

/// Seconds of the earliest instant that the datetime formatter accepts
/// (midnight at the start of the earliest representable day).
pub const DATETIME_MIN_SECS: i64 = -8334601228800;

/// Seconds of the latest instant that the datetime formatter accepts
/// (the last whole second of the latest representable day).
pub const DATETIME_MAX_SECS: i64 = 8210266876799;

/// The timestamps that stand for a renderable UTC instant: seconds since the
/// Unix epoch within the representable range, and a sub-second part that is
/// either an ordinary nanosecond count or a leap-second count (a value of at
/// least one billion, allowed only on the last second of a minute).
pub open spec fn valid_stamp(secs: int, nanos: int) -> bool {
    &&& DATETIME_MIN_SECS <= secs <= DATETIME_MAX_SECS
    &&& 0 <= nanos
    &&& (nanos < 1_000_000_000 || (nanos < 2_000_000_000 && secs % 60 == 59))
}

/// The calendar text (`YYYY-MM-DD HH:MM:SS`, zero-padded, 24-hour clock,
/// UTC) that the datetime formatter produces for the instant `secs`
/// seconds (plus `nanos` nanoseconds) after the Unix epoch.
pub uninterp spec fn datetime_prefix_of(secs: int, nanos: int) -> Seq<char>;

/// The full rendered text of a datetime: the calendar text, then a dot and
/// four zero-padded sub-second digits (ten-thousandths of a second).
pub open spec fn datetime_text(secs: int, nanos: int) -> Seq<char> {
    datetime_prefix_of(secs, nanos) + "."@ + crate::render::spec_frac4(
        (((nanos % 1_000_000_000) / 100_000) as nat),
    )
}

/// A UTC instant with sub-second precision, held as plain values: seconds
/// since the Unix epoch and nanoseconds within the second. Every value of
/// this type lies in the range the datetime formatter accepts.
#[derive(Debug, Copy, Clone, PartialEq, Eq, Structural)]
pub struct DateStamp {
    secs: i64,
    nanos: u32,
}

impl DateStamp {
    #[verifier::type_invariant]
    spec fn type_inv(self) -> bool {
        valid_stamp(self.secs as int, self.nanos as int)
    }

    /// Seconds since the Unix epoch.
    pub closed spec fn spec_secs(self) -> i64 {
        self.secs
    }

    /// Nanoseconds within the second.
    pub closed spec fn spec_nanos(self) -> u32 {
        self.nanos
    }

    /// Builds a stamp from seconds and nanoseconds; absent exactly when the
    /// instant lies outside the renderable range.
    pub fn new(secs: i64, nanos: u32) -> (r: Option<DateStamp>)
        ensures
            valid_stamp(secs as int, nanos as int) ==> (r matches Some(d) && d.spec_secs() == secs
                && d.spec_nanos() == nanos),
            !valid_stamp(secs as int, nanos as int) ==> r is None,
    {
        if DATETIME_MIN_SECS <= secs && secs <= DATETIME_MAX_SECS {
            if nanos < 1_000_000_000 {
                Some(DateStamp { secs, nanos })
            } else if nanos < 2_000_000_000 {
                let m = secs.checked_rem_euclid(60).unwrap();
                if m == 59 {
                    Some(DateStamp { secs, nanos })
                } else {
                    None
                }
            } else {
                None
            }
        } else {
            None
        }
    }

    /// The earliest representable instant; the default datetime payload.
    pub fn min_value() -> (r: DateStamp)
        ensures
            r.spec_secs() == DATETIME_MIN_SECS,
            r.spec_nanos() == 0,
    {
        DateStamp { secs: DATETIME_MIN_SECS, nanos: 0 }
    }

    /// Seconds since the Unix epoch.
    pub fn secs(&self) -> (r: i64)
        ensures
            r == self.spec_secs(),
    {
        self.secs
    }

    /// Nanoseconds within the second.
    pub fn nanos(&self) -> (r: u32)
        ensures
            r == self.spec_nanos(),
    {
        self.nanos
    }

    /// The rendered text of this instant: calendar text, a dot, and four
    /// zero-padded sub-second digits.
    pub fn render(&self) -> (r: String)
        ensures
            r@ == datetime_text(self.spec_secs() as int, self.spec_nanos() as int),
    {
        proof {
            use_type_invariant(self);
        }
        let mut s = format_timestamp(self.secs, self.nanos);
        s.append(".");
        let frac = (self.nanos % 1_000_000_000) / 100_000;
        s.append(crate::render::render_frac4(frac).as_str());
        proof {
            assert(s@ =~= datetime_text(self.spec_secs() as int, self.spec_nanos() as int));
        }
        s
    }
}

/// Relies on chrono's `DateTime::<Utc>::from_timestamp` and its
/// `%Y-%m-%d %H:%M:%S` formatting: the calendar text (zero-padded, UTC,
/// 24-hour clock) of the instant `secs` seconds plus `nanos` nanoseconds
/// after the Unix epoch. `from_timestamp` returns a value exactly on the
/// range that `valid_stamp` describes, and formatting depends on the
/// arguments alone.
#[verifier::external_body]
fn format_timestamp(secs: i64, nanos: u32) -> (r: String)
    requires
        valid_stamp(secs as int, nanos as int),
    ensures
        r@ == datetime_prefix_of(secs as int, nanos as int),
{
    chrono::DateTime::<chrono::Utc>::from_timestamp(secs, nanos)
        .unwrap()
        .format("%Y-%m-%d %H:%M:%S")
        .to_string()
}

/// One stored entry: a denormalized copy of its key, the variant tag and
/// every payload field.
pub struct IdoItem {
    pub m_key: IdoKeyT,
    pub m_string: String,
    pub m_type: IdoItemType,
    pub m_integer: i64,
    pub m_float_text: String,
    pub m_datetime: DateStamp,
    pub m_array: Vec<crate::Ido>,
}

impl IdoItem {
    /// A fresh item: string-typed with every payload at its default (empty
    /// string, zero integer, the text of floating-point zero, the earliest
    /// instant, empty array).
    pub fn new() -> (r: Self)
        ensures
            r.m_key == 0,
            r.m_string@ == Seq::<char>::empty(),
            r.m_type == IdoItemType::STRING,
            r.m_integer == 0,
            r.m_float_text@ == "0"@,
            r.m_datetime.spec_secs() == DATETIME_MIN_SECS,
            r.m_datetime.spec_nanos() == 0,
            r.m_array@.len() == 0,
    {
        IdoItem {
            m_key: 0,
            m_string: String::new(),
            m_type: IdoItemType::STRING,
            m_integer: 0,
            m_float_text: String::from_str("0"),
            m_datetime: DateStamp::min_value(),
            m_array: Vec::new(),
        }
    }

    /// The variant tag of the item.
    pub fn get_type(&self) -> (r: IdoItemType)
        ensures
            r == self.m_type,
    {
        self.m_type
    }

    /// The display text of the item's own payload: the string itself, the
    /// decimal digits of the integer, the stored float text, the formatted
    /// datetime, or a summary (`<array of N>`) for an array. Every variant
    /// renders, so the result is never absent.
    pub fn as_string(&self) -> (r: Option<String>)
        ensures
            r matches Some(s) && s@ == item_text(*self),
    {
        match self.m_type {
            IdoItemType::STRING => Some(self.m_string.clone()),
            IdoItemType::FLOAT => Some(self.m_float_text.clone()),
            IdoItemType::INTEGER => Some(crate::render::render_i64(self.m_integer)),
            IdoItemType::DATETIME => Some(self.m_datetime.render()),
            IdoItemType::ARRAY => {
                let mut s = String::from_str("<array of ");
                s.append(crate::render::render_u64(self.m_array.len() as u64).as_str());
                s.append(">");
                proof {
                    assert(s@ =~= item_text(*self));
                }
                Some(s)
            },
        }
    }
}

/// The display text of an item's payload, by variant.
pub open spec fn item_text(x: IdoItem) -> Seq<char> {
    match x.m_type {
        IdoItemType::STRING => x.m_string@,
        IdoItemType::INTEGER => crate::render::spec_dec_int(x.m_integer as int),
        IdoItemType::FLOAT => x.m_float_text@,
        IdoItemType::DATETIME => datetime_text(
            x.m_datetime.spec_secs() as int,
            x.m_datetime.spec_nanos() as int,
        ),
        IdoItemType::ARRAY => "<array of "@ + crate::render::spec_dec_nat(x.m_array@.len())
            + ">"@,
    }
}

} // verus!

//! Error boundaries: failures raised by guarded rules are kept, one entry per
//! failure site, instead of travelling further up.
use vstd::prelude::*;

verus! {

/// A domain failure raised by a rule of the user.
#[derive(Debug, Clone, Copy, PartialEq, Eq, Structural)]
pub enum RuleError {
    /// The text to parse is empty.
    Empty,
    /// The text holds a character that is not a digit where a digit must be.
    InvalidDigit,
    /// The number written is too large for the type.
    PosOverflow,
    /// The number written is too small for the type.
    NegOverflow,
    /// An arithmetic step left the range of the value type.
    Overflow,
}

impl RuleError {
    /// The text a fallback view shows for the failure.
    pub fn message(&self) -> (r: &'static str)
        ensures
            *self == RuleError::Empty ==> r@ == "cannot parse integer from empty string"@,
            *self == RuleError::InvalidDigit ==> r@ == "invalid digit found in string"@,
            *self == RuleError::PosOverflow ==> r@ == "number too large to fit in target type"@,
            *self == RuleError::NegOverflow ==> r@ == "number too small to fit in target type"@,
            *self == RuleError::Overflow ==> r@ == "arithmetic overflow"@,
    {
        proof {
            reveal_strlit("cannot parse integer from empty string");
            reveal_strlit("invalid digit found in string");
            reveal_strlit("number too large to fit in target type");
            reveal_strlit("number too small to fit in target type");
            reveal_strlit("arithmetic overflow");
        }
        match self {
            RuleError::Empty => "cannot parse integer from empty string",
            RuleError::InvalidDigit => "invalid digit found in string",
            RuleError::PosOverflow => "number too large to fit in target type",
            RuleError::NegOverflow => "number too small to fit in target type",
            RuleError::Overflow => "arithmetic overflow",
        }
    }
}

/// The failures of a guarded subtree, keyed by failure site; sites are unique.
pub struct ErrorBoundary {
    pub entries: Vec<(u64, RuleError)>,
}

/// The failure recorded for `site` in `entries`, if any.
pub open spec fn entry_for(entries: Seq<(u64, RuleError)>, site: u64) -> Option<RuleError>
    decreases entries.len(),
{
    if entries.len() == 0 {
        None
    } else if entries.last().0 == site {
        Some(entries.last().1)
    } else {
        entry_for(entries.drop_last(), site)
    }
}

pub open spec fn sites_unique(entries: Seq<(u64, RuleError)>) -> bool {
    forall|i: int, j: int| 0 <= i < j < entries.len() ==> entries[i].0 != entries[j].0
}

/// The decimal value of a string of ASCII digits.
pub open spec fn digits_value(s: Seq<char>) -> int
    decreases s.len(),
{
    if s.len() == 0 {
        0
    } else {
        digits_value(s.drop_last()) * 10 + (s.last() as int - '0' as int)
    }
}

pub open spec fn all_digits(s: Seq<char>) -> bool {
    s.len() > 0 && forall|i: int| 0 <= i < s.len() ==> '0' <= #[trigger] s[i] <= '9'
}

/// The integer that `s` writes in decimal (an optional sign, then digits),
/// if it is one.
pub open spec fn decimal_value(s: Seq<char>) -> Option<int> {
    if s.len() > 0 && s[0] == '-' && all_digits(s.drop_first()) {
        Some(-digits_value(s.drop_first()))
    } else if s.len() > 0 && s[0] == '+' && all_digits(s.drop_first()) {
        Some(digits_value(s.drop_first()))
    } else if all_digits(s) {
        Some(digits_value(s))
    } else {
        None
    }
}

/// What a number input holds: its value if the text is a decimal `i32`.
pub open spec fn parsed_i32(s: Seq<char>) -> Option<i32> {
    match decimal_value(s) {
        Some(v) => if i32::MIN <= v <= i32::MAX { Some(v as i32) } else { None },
        None => None,
    }
}

/// What parsing `s` as an `i32` may give: its value when it is a decimal
/// `i32`; `Empty` for the empty text; for a well-formed number out of range,
/// the overflow on its side; for other text, a digit or overflow failure.
pub open spec fn parse_ok(s: Seq<char>, r: Result<i32, RuleError>) -> bool {
    match parsed_i32(s) {
        Some(v) => r == Ok::<i32, RuleError>(v),
        None => if s.len() == 0 {
            r == Err::<i32, RuleError>(RuleError::Empty)
        } else {
            match decimal_value(s) {
                Some(v) => if v > i32::MAX {
                    r == Err::<i32, RuleError>(RuleError::PosOverflow)
                } else {
                    r == Err::<i32, RuleError>(RuleError::NegOverflow)
                },
                None => r == Err::<i32, RuleError>(RuleError::InvalidDigit) || r == Err::<i32, RuleError>(
                    RuleError::PosOverflow,
                ) || r == Err::<i32, RuleError>(RuleError::NegOverflow),
            }
        },
    }
}

/// Relies on `str::parse::<i32>`: an optional `+` or `-` followed by ASCII
/// digits, whose value fits, parses to that value. Otherwise the error kind is
/// `Empty` for the empty string, `PosOverflow` or `NegOverflow` for a number
/// out of range, and `InvalidDigit` (or an overflow met before the bad
/// character) for anything else.
#[verifier::external_body]
fn parse_i32(s: &str) -> (r: Result<i32, RuleError>)
    ensures
        parse_ok(s@, r),
{
    match s.parse::<i32>() {
        Ok(v) => Ok(v),
        Err(e) => Err(match e.kind() {
            std::num::IntErrorKind::Empty => RuleError::Empty,
            std::num::IntErrorKind::PosOverflow => RuleError::PosOverflow,
            std::num::IntErrorKind::NegOverflow => RuleError::NegOverflow,
            _ => RuleError::InvalidDigit,
        }),
    }
}

/// Reads the text of a number input: its value, or why it is not one.
pub fn parse_number(text: &str) -> (r: Result<i32, RuleError>)
    ensures
        parse_ok(text@, r),
{
    parse_i32(text)
}

impl ErrorBoundary {
    pub open spec fn wf(&self) -> bool {
        sites_unique(self.entries@)
    }

    /// The failure recorded for `site`, if any.
    pub open spec fn error_at(&self, site: u64) -> Option<RuleError> {
        entry_for(self.entries@, site)
    }

    /// A boundary with no failures.
    pub fn new() -> (r: Self)
        ensures
            r.wf(),
            r.entries@.len() == 0,
            forall|s: u64| r.error_at(s).is_none(),
    {
        ErrorBoundary { entries: Vec::new() }
    }

    /// The number of failure sites that hold a failure.
    pub fn len(&self) -> (r: usize)
        ensures
            r == self.entries@.len(),
    {
        self.entries.len()
    }

    pub fn is_empty(&self) -> (r: bool)
        ensures
            r == (self.entries@.len() == 0),
    {
        self.entries.len() == 0
    }

    /// The failure recorded for `site`, if any.
    pub fn get(&self, site: u64) -> (r: Option<RuleError>)
        ensures
            r == self.error_at(site),
    {
        let mut n: usize = self.entries.len();
        assert(self.entries@.take(n as int) =~= self.entries@);
        while n > 0
            invariant
                n <= self.entries.len(),
                entry_for(self.entries@, site) == entry_for(self.entries@.take(n as int), site),
            decreases n,
        {
            let e = self.entries[n - 1];
            assert(self.entries@.take(n as int).drop_last() =~= self.entries@.take(n - 1));
            if e.0 == site {
                return Some(e.1);
            }
            n = n - 1;
        }
        None
    }

    /// Takes in the outcome of one run of the rule at `site`: a failure
    /// replaces the site's entry, a success clears it. Other sites keep theirs.
    pub fn record<T>(&mut self, site: u64, outcome: &Result<T, RuleError>)
        requires
            old(self).wf(),
        ensures
            final(self).wf(),
            match outcome {
                Ok(_) => final(self).error_at(site).is_none(),
                Err(e) => final(self).error_at(site) == Some(*e),
            },
            forall|s: u64| s != site ==> final(self).error_at(s) == old(self).error_at(s),
            old(self).error_at(site).is_none() && outcome is Err
                ==> final(self).entries@.len() == old(self).entries@.len() + 1,
            old(self).error_at(site).is_none() && outcome is Ok ==> final(self).entries@ == old(self).entries@,
    {
        let ghost before = self.entries@;
        let mut kept: Vec<(u64, RuleError)> = Vec::new();
        let mut i: usize = 0;
        while i < self.entries.len()
            invariant
                self.entries@ == before,
                sites_unique(before),
                i <= before.len(),
                sites_unique(kept@),
                forall|j: int| 0 <= j < kept@.len() ==> #[trigger] kept@[j].0 != site,
                forall|s: u64| s != site ==> entry_for(kept@, s) == entry_for(before.take(i as int), s),
                entry_for(kept@, site).is_none(),
                entry_for(before.take(i as int), site).is_none() ==> kept@ == before.take(i as int),
                forall|j: int| #![trigger kept@[j]] 0 <= j < kept@.len() ==> exists|k: int| 0 <= k < i && #[trigger] before[k] == kept@[j],
            decreases before.len() - i,
        {
            let e = self.entries[i];
            assert(before.take(i + 1).drop_last() =~= before.take(i as int));
            assert(before.take(i + 1).last() == e);
            if e.0 != site {
                proof {
                    assert forall|j: int| 0 <= j < kept@.len() implies #[trigger] kept@[j].0 != e.0 by {
                        let k = choose|k: int| 0 <= k < i && #[trigger] before[k] == kept@[j];
                        assert(before[k].0 != before[i as int].0);
                    }
                }
                let ghost prev = kept@;
                kept.push(e);
                assert(kept@.drop_last() =~= prev);
                assert forall|s: u64| s != site implies entry_for(kept@, s) == entry_for(before.take(i + 1), s) by {
                    if s != e.0 {
                        assert(entry_for(kept@, s) == entry_for(prev, s));
                    }
                }
            }
            i = i + 1;
        }
        assert(before.take(before.len() as int) =~= before);
        assert forall|s: u64| s != site implies entry_for(kept@, s) == entry_for(before, s) by {}
        match outcome {
            Ok(_) => {},
            Err(e) => {
                let ghost prev = kept@;
                kept.push((site, *e));
                assert(kept@.drop_last() =~= prev);
                assert forall|s: u64| s != site implies entry_for(kept@, s) == entry_for(prev, s) by {}
                assert forall|j: int, k: int| 0 <= j < k < kept@.len() implies kept@[j].0 != kept@[k].0 by {
                    if k == kept@.len() - 1 {
                        assert(prev[j].0 != site);
                    } else {
                        assert(prev[j].0 != prev[k].0);
                    }
                }
            },
        }
        self.entries = kept;
    }
}

} // verus!

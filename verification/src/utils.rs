//! Rendering of elapsed time.

use crate::text::{decimal_text, push_decimal, push_two_digits, two_digit_text};
use std::time::Duration;
use vstd::prelude::*;

verus! {

/// The whole seconds that a duration holds.
pub uninterp spec fn duration_seconds(d: Duration) -> u64;

/// `Duration::as_secs` returns the number of whole seconds of the duration;
/// the fractional part is dropped.
pub assume_specification[ Duration::as_secs ](d: &Duration) -> (secs: u64)
    ensures
        secs == duration_seconds(*d),
;

/// How a number of seconds reads: `1h02m03s` from one hour on, `2m03s` below.
pub open spec fn elapsed_text(total_secs: nat) -> Seq<char> {
    let hrs = total_secs / 3600;
    let mins = (total_secs % 3600) / 60;
    let secs = (total_secs % 3600) % 60;
    if hrs > 0 {
        decimal_text(hrs) + "h"@ + two_digit_text(mins) + "m"@ + two_digit_text(secs) + "s"@
    } else {
        decimal_text(mins) + "m"@ + two_digit_text(secs) + "s"@
    }
}

/// Renders a number of seconds as hours, minutes and seconds.
pub fn format_seconds(total_secs: u64) -> (text: String)
    ensures
        text@ == elapsed_text(total_secs as nat),
{
    let hrs: u64 = total_secs / 3_600;
    let mins: u64 = (total_secs % 3_600) / 60;
    let secs: u64 = (total_secs % 3_600) % 60;
    let mut text = String::new();
    if hrs > 0 {
        push_decimal(&mut text, hrs);
        text.append("h");
        push_two_digits(&mut text, mins);
    } else {
        push_decimal(&mut text, mins);
    }
    text.append("m");
    push_two_digits(&mut text, secs);
    text.append("s");
    text
}

/// Renders a duration by its whole seconds.
pub fn format_duration(duration: &Duration) -> (text: String)
    ensures
        text@ == elapsed_text(duration_seconds(*duration) as nat),
{
    format_seconds(duration.as_secs())
}

} // verus!

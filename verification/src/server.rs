//! How the server answers a report.

use crate::apply::{after_report, is_repeat, report_fits_in, try_apply_report, ReportTime};
use crate::auth::{verdict_on_request, AuthFailure, AuthSettings};
use crate::history::NasTrafficHistory;
use crate::report::{report_error, validate_report_payload, TrafficReportRequest};
use crate::text::{
    as_u16, chars_of, decimal, opt_view, parse_u16, unsigned_in, views, written_numbers_read_back,
};
use vstd::prelude::*;

verus! {

/// The answer to a report.
#[derive(Debug)]
pub enum ReportReply {
    /// The sender may not report.
    Refused(AuthFailure),
    /// The report breaks a rule, which is named.
    Invalid(String),
    /// A sum of the history would be no `i64`.
    TooLarge,
    /// The report was taken in, or was there before.
    Accepted { duplicate: bool },
}

/// Answers a report: checks who sends it, then checks the report, then takes it in.
pub fn handle_report(
    history: &mut NasTrafficHistory,
    payload: &TrafficReportRequest,
    header: Option<&str>,
    settings: &AuthSettings,
    max_delta: i64,
    now: &ReportTime,
    direct_suffixes: &Vec<String>,
) -> (r: ReportReply)
    ensures
        ({
            let h = old(history).history();
            let p = payload.report();
            let suffixes = views(direct_suffixes@);
            let auth = verdict_on_request(
                match header {
                    Some(s) => Some(s@),
                    None => None,
                },
                settings.report_token_in(),
                settings.report_needs_token(),
            );
            let error = report_error(*payload, max_delta as int);
            let fits = report_fits_in(h, p, now.when(), suffixes);
            match r {
                ReportReply::Refused(f) => auth == Err::<(), AuthFailure>(f),
                ReportReply::Invalid(m) => auth is Ok && error == Some(m@),
                ReportReply::TooLarge => auth is Ok && error is None && !fits,
                ReportReply::Accepted { duplicate } => {
                    &&& auth is Ok && error is None && fits
                    &&& duplicate == is_repeat(h, p)
                    &&& final(history).history() == after_report(
                        h,
                        p,
                        now.when(),
                        suffixes,
                    )
                },
            }
        }),
        !(r is Accepted) ==> *final(history) == *old(history),
{
    if let Err(failure) = settings.validate_report_auth(header) {
        return ReportReply::Refused(failure);
    }
    if let Err(message) = validate_report_payload(payload, max_delta) {
        return ReportReply::Invalid(message);
    }
    match try_apply_report(history, payload, now, direct_suffixes) {
        Some(duplicate) => ReportReply::Accepted { duplicate },
        None => ReportReply::TooLarge,
    }
}

/// A port from a setting, the default where it is none.
pub open spec fn port_by(setting: Option<Seq<char>>, default: u16) -> u16 {
    match setting {
        Some(text) => match as_u16(unsigned_in(text)) {
            Some(n) => n,
            None => default,
        },
        None => default,
    }
}

/// A port from a setting, the default where it is none.
pub fn port_setting(setting: &Option<String>, default: u16) -> (r: u16)
    ensures
        r == port_by(opt_view(*setting), default),
{
    match setting {
        Some(text) => {
            let v = chars_of(text.as_str());
            match parse_u16(v.as_slice()) {
                Some(n) => n,
                None => default,
            }
        },
        None => default,
    }
}

/// A setting that is a number of 16 bits gives that port; without a setting, and with one that is no
/// number or too large, the default stands.
pub proof fn ports_are_read_from_settings(n: nat, other: Seq<char>, default: u16)
    requires
        unsigned_in(other) is None,
    ensures
        n < 65536 ==> port_by(Some(decimal(n)), default) == n,
        n >= 65536 ==> port_by(Some(decimal(n)), default) == default,
        port_by(Some(other), default) == default,
        port_by(None, default) == default,
{
    written_numbers_read_back(n);
}

} // verus!

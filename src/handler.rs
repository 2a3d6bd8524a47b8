//! What one request does to the table, and what it answers.
use crate::codec::{decimal, push_decimal};
use crate::table::{bumped, count_in, VisitTable};
use crate::template::{replace_all, replaced};
use vstd::prelude::*;

verus! {

/// The status of a page served.
pub const STATUS_OK: u16 = 200;

/// The status of a request without a referring page.
pub const STATUS_BAD_REQUEST: u16 = 400;

/// The answer to one request: an HTTP status and the page.
pub struct Reply {
    pub status: u16,
    pub body: String,
}

/// The decimal notation of `n`.
pub fn decimal_string(n: u64) -> (s: String)
    ensures
        s@ == decimal(n as nat),
{
    let mut s = String::new();
    push_decimal(&mut s, n);
    assert(s@ =~= decimal(n as nat));
    s
}

/// Serves one request. Without a referring page the answer is a bad request
/// with an empty page and the table stays as it was. With one, that page's
/// count goes up by one and the page is the template with the new count in
/// place of `{{VISIT_COUNT}}`.
pub fn handle(visits: &mut VisitTable, referer: Option<String>, template: &str) -> (r: Reply)
    requires
        old(visits).wf(),
        referer matches Some(k) ==> count_in(old(visits)@, k@) < u64::MAX,
    ensures
        final(visits).wf(),
        match referer {
            None => {
                &&& r.status == STATUS_BAD_REQUEST
                &&& r.body@.len() == 0
                &&& final(visits)@ == old(visits)@
            },
            Some(k) => {
                &&& r.status == STATUS_OK
                &&& final(visits)@ == bumped(old(visits)@, k@)
                &&& r.body@ == replaced(
                    template@,
                    "{{VISIT_COUNT}}"@,
                    decimal(count_in(old(visits)@, k@) + 1),
                )
            },
        },
{
    match referer {
        None => Reply { status: STATUS_BAD_REQUEST, body: String::new() },
        Some(key) => {
            let visit = visits.increment_and_get(key);
            let count = decimal_string(visit);
            proof {
                reveal_strlit("{{VISIT_COUNT}}");
            }
            let body = replace_all(template, "{{VISIT_COUNT}}", count.as_str());
            Reply { status: STATUS_OK, body }
        },
    }
}

} // verus!

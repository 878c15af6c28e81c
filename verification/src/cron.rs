//! Who may trigger a scrape through the cron endpoint.
use vstd::prelude::*;

use crate::text::{contains, contains_str, str_eq};

verus! {

/// A request comes from Vercel's scheduler when its user agent mentions `vercel-cron`.
pub open spec fn from_scheduler(user_agent: Option<Seq<char>>) -> bool {
    user_agent matches Some(ua) && contains(ua, "vercel-cron"@)
}

/// A request may run the scrape when it comes from the scheduler, or when a non-empty
/// cron secret is configured and the request's `x-cron-secret` header carries exactly it.
pub open spec fn may_run(
    user_agent: Option<Seq<char>>,
    configured: Option<Seq<char>>,
    given: Option<Seq<char>>,
) -> bool {
    ||| from_scheduler(user_agent)
    ||| (configured matches Some(s) && s.len() > 0 && given == Some(s))
}

/// The characters of an optional text.
pub open spec fn opt_view(o: Option<&str>) -> Option<Seq<char>> {
    match o {
        Some(s) => Some(s@),
        None => None,
    }
}

/// Whether the request's user agent (`None` when absent or not text) marks Vercel's
/// scheduler.
pub fn is_vercel_cron(user_agent: Option<&str>) -> (r: bool)
    ensures
        r == from_scheduler(opt_view(user_agent)),
{
    match user_agent {
        Some(ua) => contains_str(ua, "vercel-cron"),
        None => false,
    }
}

/// Whether a request may run the scrape: it comes from the scheduler, or the configured
/// cron secret (`None` when unset) is non-empty and equals the request's `x-cron-secret`
/// header (`None` when absent or not text). Without a secret, only the scheduler may.
pub fn authorized(user_agent: Option<&str>, configured: Option<&str>, given: Option<&str>) -> (r:
    bool)
    ensures
        r == may_run(opt_view(user_agent), opt_view(configured), opt_view(given)),
{
    if is_vercel_cron(user_agent) {
        return true;
    }
    match (configured, given) {
        (Some(secret), Some(header)) => !secret.is_empty() && str_eq(header, secret),
        _ => false,
    }
}

/// The endpoint fails closed: when no non-empty secret is configured, a request that does
/// not come from the scheduler is refused whatever header it carries.
pub proof fn cron_fails_closed(
    user_agent: Option<Seq<char>>,
    configured: Option<Seq<char>>,
    given: Option<Seq<char>>,
)
    requires
        !from_scheduler(user_agent),
        configured is None || configured == Some(Seq::<char>::empty()),
    ensures
        !may_run(user_agent, configured, given),
{
}

} // verus!

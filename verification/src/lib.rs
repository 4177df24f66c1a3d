//! A fixed-size worker pool: jobs submitted by any number of callers are
//! carried on one first-in first-out dispatch channel and handed out to a
//! bounded set of long-lived workers, each job to exactly one worker. The
//! pool's lifecycle — construction, submission, dispatch, and teardown that
//! retires every worker with exactly one stop signal each — is modelled and
//! proved here.

pub mod dispatch;
pub mod pool;
pub mod worker;

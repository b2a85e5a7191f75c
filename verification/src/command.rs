//! What one invocation is asked to do: the one command that the options amount
//! to, the cutoff for a check, and whether the throttle lets a check run.

use crate::throttle::{ran_in_past_n_days, ran_within};
use crate::time::Timestamp;
use vstd::prelude::*;

verus! {

/// A change to the subscriptions that was asked for by name.
#[derive(Clone, Debug, PartialEq, Eq)]
pub enum Subcommand {
    /// Add a feed subscription
    Add { name: String, url: String },
    /// Remove a feed subscription
    Remove { name: String },
}

/// The options of one invocation, as they were given.
#[derive(Clone, Debug, PartialEq, Eq)]
pub struct Options {
    /// The subscriptions file to use instead of the default file
    pub subscriptions_file: Option<String>,
    /// Copy the subscriptions file out
    pub export: bool,
    /// Replace the subscriptions file by this file
    pub import: Option<String>,
    /// List the subscriptions
    pub list: bool,
    /// Show when the last check ran
    pub last_ran_at: bool,
    /// Hide feeds with no items
    pub hide_empty_feeds: bool,
    /// Show posts from this many weeks back
    pub weeks: i64,
    /// Check at most once in this many days
    pub run_days: Option<i64>,
    /// Only show feeds whose name includes this text
    pub filter_by_name: Option<String>,
    /// Show at most this many posts per feed
    pub posts_limit: usize,
    /// The change that was asked for, if any
    pub command: Option<Subcommand>,
}

/// The one thing that an invocation does, with what it needs for it.
#[derive(Clone, Debug, PartialEq, Eq)]
pub enum Command {
    Export,
    Import { file: String },
    Add { name: String, url: String },
    Remove { name: String },
    List,
    LastRanAt,
    Check {
        weeks: i64,
        run_days: Option<i64>,
        hide_empty_feeds: bool,
        filter_by_name: Option<String>,
        posts_limit: usize,
    },
}

/// A command and the subscriptions file that it works on; `None` is the default
/// file.
#[derive(Clone, Debug, PartialEq, Eq)]
pub struct Request {
    pub subscriptions_file: Option<String>,
    pub command: Command,
}

/// The command that the options amount to. An export comes before an import,
/// either before a change, a change before listing, listing before showing the
/// last run, and a check is what remains.
pub open spec fn command_for(options: Options) -> Command {
    if options.export {
        Command::Export
    } else {
        match options.import {
            Some(file) => Command::Import { file },
            None => match options.command {
                Some(Subcommand::Add { name, url }) => Command::Add { name, url },
                Some(Subcommand::Remove { name }) => Command::Remove { name },
                None => if options.list {
                    Command::List
                } else if options.last_ran_at {
                    Command::LastRanAt
                } else {
                    Command::Check {
                        weeks: options.weeks,
                        run_days: options.run_days,
                        hide_empty_feeds: options.hide_empty_feeds,
                        filter_by_name: options.filter_by_name,
                        posts_limit: options.posts_limit,
                    }
                },
            },
        }
    }
}

/// The request that the options amount to. Export and import work on the
/// default file whatever file was named; every other command works on the file
/// that was named, if one was.
pub open spec fn request_for(options: Options) -> Request {
    Request {
        subscriptions_file: if options.export || options.import is Some {
            None
        } else {
            options.subscriptions_file
        },
        command: command_for(options),
    }
}

/// Decides what an invocation with these options does.
pub fn dispatch(options: Options) -> (request: Request)
    ensures
        request == request_for(options),
{
    if options.export {
        Request { subscriptions_file: None, command: Command::Export }
    } else {
        match options.import {
            Some(file) => Request { subscriptions_file: None, command: Command::Import { file } },
            None => {
                let command = match options.command {
                    Some(Subcommand::Add { name, url }) => Command::Add { name, url },
                    Some(Subcommand::Remove { name }) => Command::Remove { name },
                    None => if options.list {
                        Command::List
                    } else if options.last_ran_at {
                        Command::LastRanAt
                    } else {
                        Command::Check {
                            weeks: options.weeks,
                            run_days: options.run_days,
                            hide_empty_feeds: options.hide_empty_feeds,
                            filter_by_name: options.filter_by_name,
                            posts_limit: options.posts_limit,
                        }
                    },
                };
                Request { subscriptions_file: options.subscriptions_file, command }
            },
        }
    }
}

/// The instant `weeks` weeks before `now`, in the zone of `now`: the cutoff for
/// a check. There is none where its seconds do not fit the machine's numbers.
pub fn cutoff(now: Timestamp, weeks: i64) -> (since: Option<Timestamp>)
    ensures
        match since {
            Some(at) => at.secs == now.secs - weeks * 604_800 && at.nanos == now.nanos
                && at.offset == now.offset,
            None => !(i64::MIN <= now.secs - weeks * 604_800 <= i64::MAX),
        },
{
    let span: i128 = (weeks as i128) * 604_800;
    let wide: i128 = (now.secs as i128) - span;
    if wide < i64::MIN as i128 || wide > i64::MAX as i128 {
        None
    } else {
        Some(Timestamp { secs: wide as i64, nanos: now.nanos, offset: now.offset })
    }
}

/// Whether a check is to run now. Without a limit on its frequency it always
/// is; with one, of `n` days, it is unless the last run lies within the past
/// `n` days.
pub fn should_check(run_days: Option<i64>, last_ran: u64, now: i64) -> (run: bool)
    ensures
        run == match run_days {
            Some(n) => !ran_within(last_ran as int, now as int, n as int),
            None => true,
        },
{
    match run_days {
        Some(n) => !ran_in_past_n_days(last_ran, now, n),
        None => true,
    }
}

/// Whether a check that ran is to be recorded as the last run: it is where a
/// limit on the frequency of checks was given.
pub fn use_ran_today(run_days: Option<i64>) -> (record: bool)
    ensures
        record == run_days is Some,
{
    run_days.is_some()
}

} // verus!

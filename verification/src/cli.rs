//! The command surface as plain data: which action to run and with which
//! options. Argument parsing itself lives outside the library; these types
//! only carry the parsed choices into it.
use vstd::prelude::*;

verus! {

/// Options for fetching roster attachments from a mailbox.
#[derive(Debug)]
pub struct Fetch {
    /// The email address used to fetch the attachments.
    pub email: String,
    /// The host to connect to.
    pub host: String,
    /// The password that matches the email.
    pub password: String,
    /// The email subject to filter the attachments.
    pub subject: String,
}

/// Options for aggregating already-fetched attachments.
#[derive(Debug)]
pub struct Aggregate {
    /// The status text that marks a person as off duty.
    pub off_duty_keyword: String,
}

/// Options for fetching and aggregating in one run.
#[derive(Debug)]
pub struct Update {
    /// The email address used to fetch the attachments.
    pub email: String,
    /// The host to connect to.
    pub host: String,
    /// The password that matches the email.
    pub password: String,
    /// The email subject to filter the attachments.
    pub subject: String,
    /// The status text that marks a person as off duty.
    pub off_duty_keyword: String,
}

/// Options for producing the per-person on-duty table.
#[derive(Debug)]
pub struct OnDuty {
    /// Print the overview.
    pub print: bool,
    /// Export the overview as a spreadsheet.
    pub export: bool,
}

/// Options for producing the on-duty history.
#[derive(Debug)]
pub struct History {
    /// Print the overview.
    pub print: bool,
    /// Export the overview as a chart.
    pub export: bool,
    /// The year of the month window; only meaningful together with `month`.
    pub year: Option<i32>,
    /// The month of the month window; only meaningful together with `year`.
    pub month: Option<u32>,
}

/// One requested action.
#[derive(Debug)]
pub enum Cli {
    /// Fetch all attachments.
    Fetch(Fetch),
    /// Aggregate attachments.
    Aggregate(Aggregate),
    /// Fetch all attachments and aggregate them.
    Update(Update),
    /// Create the on-duty table.
    OnDuty(OnDuty),
    /// Create the history plot.
    History(History),
}

impl History {
    /// Year and month must be given together or not at all; anything else
    /// is a configuration error.
    pub open spec fn filter_consistent(self) -> bool {
        self.year is Some <==> self.month is Some
    }

    /// Whether the year and month options are given together or not at all.
    pub fn check_filter_consistent(&self) -> (b: bool)
        ensures
            b == self.filter_consistent(),
    {
        self.year.is_some() == self.month.is_some()
    }
}

} // verus!

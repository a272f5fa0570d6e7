//! The monitoring query: up to three optional predicates (command-name
//! prefix, process id, terminal), its validity and rendering, and the
//! matcher that decides whether a snapshot still holds a matching process.

use vstd::prelude::*;
use vstd::string::StringExecFns;
use crate::process::{ParseError, Process, ProcessMap};
use crate::text::{
    dec_string_of, dec_value, is_digit_seq, parse_u32, str_eq, str_starts_with, trim_end,
    trim_end_spec, u32_string,
};

verus! {

/// The largest plausible process id: a supplied pid above it is treated
/// as absent.
pub const MAX_PID: u32 = 99999;

/// The immutable predicate set identifying the process to monitor.
#[derive(Debug)]
pub struct Query {
    pub command: Option<String>,
    pub pid: Option<u32>,
    pub tty: Option<String>,
}

/// A supplied pid value outside the plausible range is normalized away.
pub open spec fn normalized_pid(pid: Option<u32>) -> Option<u32> {
    if pid is Some && pid->Some_0 > MAX_PID {
        None
    } else {
        pid
    }
}

/// A query is valid when at least one predicate is present.
pub open spec fn query_valid(q: Query) -> bool {
    q.command is Some || q.pid is Some || q.tty is Some
}

/// The fixed rendering of a query: the present predicates only, in the
/// order command, pid, tty, each as "label: value ", in parentheses.
pub open spec fn render_of(q: Query) -> Seq<char> {
    "("@ + (if q.command is Some {
        "command: "@ + q.command->Some_0@ + " "@
    } else {
        Seq::<char>::empty()
    }) + (if q.pid is Some {
        "pid: "@ + dec_string_of(q.pid->Some_0 as nat) + " "@
    } else {
        Seq::<char>::empty()
    }) + (if q.tty is Some {
        "tty: "@ + q.tty->Some_0@ + " "@
    } else {
        Seq::<char>::empty()
    }) + ")"@
}

/// One group of records satisfies the query when any one present
/// predicate is satisfied (disjunction, not conjunction): some record has
/// the queried pid, or the group's terminal is the queried one and hosts
/// at least one record, or some record's command starts with the queried
/// command.
pub open spec fn group_matched(q: Query, tty: Seq<char>, procs: Seq<Process>) -> bool {
    ||| (q.pid is Some && exists|j: int|
        0 <= j < procs.len() && (#[trigger] procs[j]).pid == q.pid->Some_0)
    ||| (q.tty is Some && q.tty->Some_0@ == tty && procs.len() > 0)
    ||| (q.command is Some && exists|j: int|
        0 <= j < procs.len() && q.command->Some_0@.is_prefix_of((#[trigger] procs[j]).command@))
}

/// Some group of the snapshot satisfies the query.
pub open spec fn found_in(q: Query, m: Seq<(Seq<char>, Seq<Process>)>) -> bool {
    exists|i: int| 0 <= i < m.len() && group_matched(q, (#[trigger] m[i]).0, m[i].1)
}

fn any_pid_eq(procs: &[Process], pid: u32) -> (r: bool)
    ensures
        r == exists|j: int| 0 <= j < procs@.len() && (#[trigger] procs@[j]).pid == pid,
{
    let n = procs.len();
    let mut j: usize = 0;
    while j < n
        invariant
            j <= n,
            n == procs@.len(),
            forall|k: int| 0 <= k < j ==> (#[trigger] procs@[k]).pid != pid,
        decreases n - j,
    {
        if procs[j].pid == pid {
            return true;
        }
        j = j + 1;
    }
    false
}

fn any_command_prefix(procs: &[Process], command: &str) -> (r: bool)
    ensures
        r == exists|j: int|
            0 <= j < procs@.len() && command@.is_prefix_of((#[trigger] procs@[j]).command@),
{
    let n = procs.len();
    let mut j: usize = 0;
    while j < n
        invariant
            j <= n,
            n == procs@.len(),
            forall|k: int| 0 <= k < j ==> !command@.is_prefix_of((#[trigger] procs@[k]).command@),
        decreases n - j,
    {
        if str_starts_with(procs[j].command.as_str(), command) {
            return true;
        }
        j = j + 1;
    }
    false
}

impl Query {
    /// Construct a query, normalizing an out-of-range pid to absent.
    pub fn new(command: Option<String>, pid: Option<u32>, tty: Option<String>) -> (q: Query)
        ensures
            q.command == command,
            q.pid == normalized_pid(pid),
            q.tty == tty,
    {
        let pid_n: Option<u32> = match pid {
            Some(p) => if p > MAX_PID {
                None
            } else {
                Some(p)
            },
            None => None,
        };
        Query { command, pid: pid_n, tty }
    }

    /// True when at least one predicate is present.
    pub fn is_valid(&self) -> (r: bool)
        ensures
            r == query_valid(*self),
    {
        self.command.is_some() || self.pid.is_some() || self.tty.is_some()
    }

    /// Render the query for display. The same query always renders the
    /// same text.
    pub fn make_str(&self) -> (r: String)
        ensures
            r@ == render_of(*self),
    {
        let mut r = String::from_str("(");
        match &self.command {
            Some(command) => {
                r.append("command: ");
                r.append(command.as_str());
                r.append(" ");
            },
            None => {},
        }
        match &self.pid {
            Some(pid) => {
                r.append("pid: ");
                let numeral = u32_string(*pid);
                r.append(numeral.as_str());
                r.append(" ");
            },
            None => {},
        }
        match &self.tty {
            Some(tty) => {
                r.append("tty: ");
                r.append(tty.as_str());
                r.append(" ");
            },
            None => {},
        }
        r.append(")");
        proof {
            assert(r@ =~= render_of(*self));
        }
        r
    }

    /// Does the group of records on `target_tty` satisfy this query?
    pub fn is_matched(&self, target_tty: &str, target_process_list: &[Process]) -> (r: bool)
        ensures
            r == group_matched(*self, target_tty@, target_process_list@),
    {
        match &self.pid {
            Some(pid) => {
                if any_pid_eq(target_process_list, *pid) {
                    return true;
                }
            },
            None => {},
        }
        match &self.tty {
            Some(tty) => {
                if !target_process_list.is_empty() && str_eq(target_tty, tty.as_str()) {
                    return true;
                }
            },
            None => {},
        }
        match &self.command {
            Some(command) => {
                if any_command_prefix(target_process_list, command.as_str()) {
                    return true;
                }
            },
            None => {},
        }
        false
    }

    /// Does any group of the snapshot satisfy this query?
    pub fn is_found(&self, process_map: ProcessMap) -> (r: bool)
        ensures
            r == found_in(*self, process_map@),
    {
        let n = process_map.len();
        let mut i: usize = 0;
        while i < n
            invariant
                i <= n,
                n == process_map@.len(),
                forall|k: int|
                    0 <= k < i ==> !group_matched(
                        *self,
                        (#[trigger] process_map@[k]).0,
                        process_map@[k].1,
                    ),
            decreases n - i,
        {
            let tty = process_map.tty_at(i);
            let records = process_map.records_at(i);
            if self.is_matched(tty.as_str(), records.as_slice()) {
                return true;
            }
            i = i + 1;
        }
        false
    }
}

/// The externally supplied option values: the three predicates, the
/// progress-output setting and the polling interval.
pub struct Args {
    pub command: Option<String>,
    pub pid: Option<u32>,
    pub tty: Option<String>,
    pub output: Option<bool>,
    pub interval: Option<u8>,
}

/// Progress output is on unless switched off.
pub const DEFAULT_OUTPUT: bool = true;

/// The default polling interval, in seconds.
pub const DEFAULT_INTERVAL: u8 = 10;

impl Args {
    pub fn new(
        command: Option<String>,
        pid: Option<u32>,
        tty: Option<String>,
        output: Option<bool>,
        interval: Option<u8>,
    ) -> (a: Args)
        ensures
            a.command == command,
            a.pid == pid,
            a.tty == tty,
            a.output == output,
            a.interval == interval,
    {
        Args { command, pid, tty, output, interval }
    }

    /// The query the supplied values denote.
    pub fn make_query(self) -> (q: Query)
        ensures
            q.command == self.command,
            q.pid == normalized_pid(self.pid),
            q.tty == self.tty,
    {
        Query::new(self.command, self.pid, self.tty)
    }

    /// Whether any predicate value was supplied.
    pub fn is_some(&self) -> (r: bool)
        ensures
            r == (self.command is Some || self.pid is Some || self.tty is Some),
    {
        self.command.is_some() || self.pid.is_some() || self.tty.is_some()
    }

    /// The progress-output setting, defaulted when absent.
    pub fn is_output(&self) -> (r: bool)
        ensures
            r == (if self.output is Some {
                self.output->Some_0
            } else {
                DEFAULT_OUTPUT
            }),
    {
        self.output.unwrap_or(DEFAULT_OUTPUT)
    }

    /// The polling interval, defaulted when absent.
    pub fn get_interval(&self) -> (r: u8)
        ensures
            r == (if self.interval is Some {
                self.interval->Some_0
            } else {
                DEFAULT_INTERVAL
            }),
    {
        self.interval.unwrap_or(DEFAULT_INTERVAL)
    }
}

/// The query element denoted by one line of interactive input: the line
/// with trailing whitespace removed, or absent when nothing remains.
pub fn make_query_element(line: &str) -> (r: Option<String>)
    ensures
        r is Some <==> trim_end_spec(line@).len() > 0,
        r matches Some(e) ==> e@ == trim_end_spec(line@),
{
    let trimmed = trim_end(line);
    if trimmed.unicode_len() == 0 {
        None
    } else {
        Some(trimmed.to_owned())
    }
}

/// Resolve a query from interactively gathered elements. All three absent
/// means there is nothing to monitor; a pid element that is not a decimal
/// number in range is an input error.
pub fn query_from_elements(
    command: Option<String>,
    pid_text: Option<String>,
    tty: Option<String>,
) -> (r: Result<Option<Query>, ParseError>)
    ensures
        (command is None && pid_text is None && tty is None) ==> r is Ok && r->Ok_0 is None,
        (pid_text matches Some(t) && !(is_digit_seq(t@) && dec_value(t@) <= u32::MAX)) ==> r is Err
            && r->Err_0 == ParseError::InvalidPid,
        (!(command is None && pid_text is None && tty is None) && (pid_text is None || (
        is_digit_seq(pid_text->Some_0@) && dec_value(pid_text->Some_0@) <= u32::MAX))) ==> {
            &&& r is Ok
            &&& r->Ok_0 is Some
            &&& r->Ok_0->Some_0.command == command
            &&& r->Ok_0->Some_0.tty == tty
            &&& r->Ok_0->Some_0.pid == normalized_pid(
                if pid_text is Some {
                    Some(dec_value(pid_text->Some_0@) as u32)
                } else {
                    None
                },
            )
        },
{
    if command.is_none() && pid_text.is_none() && tty.is_none() {
        return Ok(None);
    }
    let pid: Option<u32> = match &pid_text {
        Some(t) => match parse_u32(t.as_str()) {
            Some(p) => Some(p),
            None => {
                return Err(ParseError::InvalidPid);
            },
        },
        None => None,
    };
    Ok(Some(Query::new(command, pid, tty)))
}

/// A query with all three predicates absent is never valid.
pub proof fn lemma_all_absent_query_invalid(q: Query)
    requires
        q.command is None,
        q.pid is None,
        q.tty is None,
    ensures
        !query_valid(q),
{
}

/// Rendering depends on the three predicates alone: queries with equal
/// predicates render identically, on every call.
pub proof fn lemma_render_stable(a: Query, b: Query)
    requires
        a.command == b.command,
        a.pid == b.pid,
        a.tty == b.tty,
    ensures
        render_of(a) == render_of(b),
{
}

/// An empty snapshot matches no valid query.
pub proof fn lemma_empty_no_match(q: Query)
    requires
        query_valid(q),
    ensures
        !found_in(q, Seq::<(Seq<char>, Seq<Process>)>::empty()),
{
}

/// One record, on terminal `tty`, satisfies the query: it has the queried
/// pid, or sits on the queried terminal, or its command starts with the
/// queried command.
pub open spec fn record_satisfies(q: Query, tty: Seq<char>, p: Process) -> bool {
    ||| (q.pid is Some && p.pid == q.pid->Some_0)
    ||| (q.tty is Some && q.tty->Some_0@ == tty)
    ||| (q.command is Some && q.command->Some_0@.is_prefix_of(p.command@))
}

/// Disjunctive matching: over a snapshot whose groups are all nonempty,
/// the query matches exactly when at least one record satisfies at least
/// one present predicate.
pub proof fn lemma_match_iff_some_record(q: Query, m: Seq<(Seq<char>, Seq<Process>)>)
    requires
        forall|i: int| 0 <= i < m.len() ==> (#[trigger] m[i]).1.len() > 0,
    ensures
        found_in(q, m) <==> exists|i: int, j: int|
            0 <= i < m.len() && 0 <= j < m[i].1.len() && record_satisfies(
                q,
                m[i].0,
                #[trigger] m[i].1[j],
            ),
{
    if found_in(q, m) {
        let i = choose|i: int| 0 <= i < m.len() && group_matched(q, (#[trigger] m[i]).0, m[i].1);
        if q.pid is Some && exists|j: int|
            0 <= j < m[i].1.len() && (#[trigger] m[i].1[j]).pid == q.pid->Some_0 {
            let j = choose|j: int|
                0 <= j < m[i].1.len() && (#[trigger] m[i].1[j]).pid == q.pid->Some_0;
            assert(record_satisfies(q, m[i].0, m[i].1[j]));
        } else if q.tty is Some && q.tty->Some_0@ == m[i].0 && m[i].1.len() > 0 {
            assert(record_satisfies(q, m[i].0, m[i].1[0]));
        } else {
            let j = choose|j: int|
                0 <= j < m[i].1.len() && q.command->Some_0@.is_prefix_of(
                    (#[trigger] m[i].1[j]).command@,
                );
            assert(record_satisfies(q, m[i].0, m[i].1[j]));
        }
    }
    if exists|i: int, j: int|
        0 <= i < m.len() && 0 <= j < m[i].1.len() && record_satisfies(
            q,
            m[i].0,
            #[trigger] m[i].1[j],
        ) {
        let (i, j) = choose|i: int, j: int|
            0 <= i < m.len() && 0 <= j < m[i].1.len() && record_satisfies(
                q,
                m[i].0,
                #[trigger] m[i].1[j],
            );
        assert(group_matched(q, m[i].0, m[i].1));
    }
}

/// Disjunctive matching over a built snapshot: for a snapshot built from
/// process-table text, the matcher's verdict is true exactly when at
/// least one surviving record satisfies at least one present predicate.
pub proof fn lemma_built_snapshot_match(q: Query, m: &ProcessMap, text: Seq<char>, self_pid: u32)
    requires
        m.model() == crate::process::build_model(crate::text::lines_of(text), self_pid),
    ensures
        found_in(q, m@) <==> exists|i: int, j: int|
            0 <= i < m@.len() && 0 <= j < m@[i].1.len() && record_satisfies(
                q,
                m@[i].0,
                #[trigger] m@[i].1[j],
            ),
{
    crate::process::lemma_built_groups(text, self_pid);
    crate::process::lemma_model_group_lens(m);
    assert forall|i: int| 0 <= i < m@.len() implies (#[trigger] m@[i]).1.len() > 0 by {
        assert(m.model()[i].1.len() == m@[i].1.len());
        assert(m.model()[i].1.len() > 0);
    }
    lemma_match_iff_some_record(q, m@);
}

} // verus!

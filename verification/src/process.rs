//! Process records and snapshots: parsing one process-table line, and
//! building the terminal-grouped snapshot from raw process-table text.

use vstd::prelude::*;
use crate::text::{
    dec_value, is_digit_seq, join_from, join_spaces, lines_of, parse_u32, split_lines,
    split_tokens, str_eq, str_starts_with, tokens_of,
};

verus! {

/// Why a process-table line could not be parsed.
#[derive(Debug, PartialEq, Eq, Structural)]
pub enum ParseError {
    /// Fewer than four whitespace-separated columns.
    MissingColumns,
    /// The process-id column is not a decimal number that fits the pid type.
    InvalidPid,
}

/// One live process at snapshot time: its id and its command line.
#[derive(Debug)]
pub struct Process {
    pub pid: u32,
    pub command: String,
}

impl Process {
    pub fn new(pid: u32, command: String) -> (p: Process)
        ensures
            p.pid == pid,
            p.command == command,
    {
        Process { pid, command }
    }
}

/// A process-table line in the expected shape: at least four columns, the
/// first a decimal process id that fits the pid type.
pub open spec fn line_wellformed(line: Seq<char>) -> bool {
    &&& tokens_of(line).len() >= 4
    &&& is_digit_seq(tokens_of(line)[0])
    &&& dec_value(tokens_of(line)[0]) <= u32::MAX
}

/// The process id on a wellformed line.
pub open spec fn line_pid(line: Seq<char>) -> nat {
    dec_value(tokens_of(line)[0])
}

/// The terminal identifier on a wellformed line.
pub open spec fn line_tty(line: Seq<char>) -> Seq<char> {
    tokens_of(line)[1]
}

/// The command line on a wellformed line: the tokens from the fourth
/// column onward, joined with single spaces.
pub open spec fn line_command(line: Seq<char>) -> Seq<char> {
    join_spaces(tokens_of(line).skip(3))
}

/// Parse one process-table line into its terminal and its process record.
pub fn make_process(process: &str) -> (r: Result<(String, Process), ParseError>)
    ensures
        r is Ok <==> line_wellformed(process@),
        r is Ok ==> r->Ok_0.0@ == line_tty(process@),
        r is Ok ==> r->Ok_0.1.pid as nat == line_pid(process@),
        r is Ok ==> r->Ok_0.1.command@ == line_command(process@),
        tokens_of(process@).len() < 4 ==> r is Err && r->Err_0 == ParseError::MissingColumns,
        tokens_of(process@).len() >= 4 && !line_wellformed(process@) ==> r is Err && r->Err_0
            == ParseError::InvalidPid,
{
    let toks = split_tokens(process);
    proof {
        assert(toks@.len() == toks.deep_view().len());
    }
    if toks.len() < 4 {
        return Err(ParseError::MissingColumns);
    }
    proof {
        assert(toks.deep_view()[0] == toks@[0]@);
        assert(toks.deep_view()[1] == toks@[1]@);
    }
    match parse_u32(toks[0].as_str()) {
        None => Err(ParseError::InvalidPid),
        Some(pid) => {
            let command = join_from(&toks, 3);
            proof {
                assert(toks.deep_view().skip(3) =~= tokens_of(process@).skip(3));
            }
            let tty: String = toks[1].clone();
            Ok((tty, Process::new(pid, command)))
        },
    }
}

/// The spec-level image of one process record: its id and command line.
#[verifier::ext_equal]
pub ghost struct RecordModel {
    pub pid: nat,
    pub command: Seq<char>,
}

/// The spec-level image of a `Process`.
pub open spec fn process_model(p: Process) -> RecordModel {
    RecordModel { pid: p.pid as nat, command: p.command@ }
}

/// The spec-level records of one group, element for element.
pub open spec fn records_model(procs: Seq<Process>) -> Seq<RecordModel> {
    Seq::new(procs.len(), |j: int| process_model(procs[j]))
}

proof fn lemma_records_model_push(procs: Seq<Process>, p: Process)
    ensures
        records_model(procs.push(p)) == records_model(procs).push(process_model(p)),
{
    assert(records_model(procs.push(p)) =~= records_model(procs).push(process_model(p)));
}

/// A process snapshot: records grouped by their controlling terminal.
/// Terminals are distinct; each group holds the records sharing that
/// terminal, in the order they were added.
#[derive(Debug)]
pub struct ProcessMap {
    groups: Vec<(String, Vec<Process>)>,
}

impl View for ProcessMap {
    type V = Seq<(Seq<char>, Seq<Process>)>;

    closed spec fn view(&self) -> Seq<(Seq<char>, Seq<Process>)> {
        Seq::new(self.groups@.len(), |i: int| (self.groups@[i].0@, self.groups@[i].1@))
    }
}

/// Adding one record to a grouped model: where `tty` already has a group,
/// the record joins it; otherwise a new group is appended.
pub open spec fn model_push_record(
    m: Seq<(Seq<char>, Seq<RecordModel>)>,
    tty: Seq<char>,
    rec: RecordModel,
) -> Seq<(Seq<char>, Seq<RecordModel>)> {
    if exists|i: int| 0 <= i < m.len() && (#[trigger] m[i]).0 == tty {
        let i = choose|i: int| 0 <= i < m.len() && (#[trigger] m[i]).0 == tty;
        m.update(i, (tty, m[i].1.push(rec)))
    } else {
        m.push((tty, seq![rec]))
    }
}

impl ProcessMap {
    /// Terminal keys are distinct.
    pub open spec fn wf(&self) -> bool {
        forall|i: int, j: int| 0 <= i < j < self@.len() ==> (#[trigger] self@[i]).0 != (
        #[trigger] self@[j]).0
    }

    /// The snapshot's groups as spec-level records.
    pub open spec fn model(&self) -> Seq<(Seq<char>, Seq<RecordModel>)> {
        Seq::new(self@.len(), |i: int| (self@[i].0, records_model(self@[i].1)))
    }

    /// An empty snapshot.
    pub fn new() -> (m: ProcessMap)
        ensures
            m@ == Seq::<(Seq<char>, Seq<Process>)>::empty(),
            m.wf(),
    {
        let m = ProcessMap { groups: Vec::new() };
        proof {
            assert(m@ =~= Seq::<(Seq<char>, Seq<Process>)>::empty());
        }
        m
    }

    /// The number of terminal groups.
    pub fn len(&self) -> (n: usize)
        ensures
            n == self@.len(),
    {
        self.groups.len()
    }

    /// The terminal of group `i`.
    pub fn tty_at(&self, i: usize) -> (t: &String)
        requires
            i < self@.len(),
        ensures
            t@ == self@[i as int].0,
    {
        &self.groups[i].0
    }

    /// The records of group `i`.
    pub fn records_at(&self, i: usize) -> (l: &Vec<Process>)
        requires
            i < self@.len(),
        ensures
            l@ == self@[i as int].1,
    {
        &self.groups[i].1
    }

    /// The records grouped under terminal `tty`, when present.
    pub fn get(&self, tty: &str) -> (r: Option<&Vec<Process>>)
        ensures
            r is Some <==> exists|i: int| 0 <= i < self@.len() && (#[trigger] self@[i]).0 == tty@,
            r matches Some(l) ==> exists|i: int|
                0 <= i < self@.len() && (#[trigger] self@[i]).0 == tty@ && l@ == self@[i].1,
    {
        let n = self.groups.len();
        let mut i: usize = 0;
        while i < n
            invariant
                i <= n,
                n == self@.len(),
                forall|k: int| 0 <= k < i ==> (#[trigger] self@[k]).0 != tty@,
            decreases n - i,
        {
            if str_eq(self.groups[i].0.as_str(), tty) {
                proof {
                    assert(self@[i as int].0 == tty@);
                    assert(self@[i as int].1 == self.groups@[i as int].1@);
                }
                return Some(&self.groups[i].1);
            }
            i = i + 1;
        }
        None
    }

    /// Add a group for a terminal that is not present yet.
    pub fn insert(&mut self, tty: String, records: Vec<Process>)
        requires
            forall|i: int| 0 <= i < old(self)@.len() ==> (#[trigger] old(self)@[i]).0 != tty@,
        ensures
            final(self)@ == old(self)@.push((tty@, records@)),
            old(self).wf() ==> final(self).wf(),
    {
        let ghost pre = self@;
        self.groups.push((tty, records));
        proof {
            assert(self@ =~= pre.push((self.groups@.last().0@, self.groups@.last().1@)));
        }
    }

    /// Add one record under its terminal, creating the group if new.
    #[verifier::loop_isolation(false)]
    pub fn push_record(&mut self, tty: &str, p: Process)
        requires
            old(self).wf(),
        ensures
            final(self).wf(),
            final(self).model() == model_push_record(old(self).model(), tty@, process_model(p)),
    {
        let ghost pre = self@;
        let ghost prem = self.model();
        proof {
            assert(prem.len() == pre.len());
            assert(forall|i: int|
                0 <= i < pre.len() ==> #[trigger] prem[i] == (pre[i].0, records_model(pre[i].1)));
        }
        let n = self.groups.len();
        let mut k: usize = 0;
        while k < n
            invariant
                k <= n,
                n == self@.len(),
                self@ == pre,
                forall|j: int| 0 <= j < k ==> (#[trigger] self@[j]).0 != tty@,
            decreases n - k,
        {
            if str_eq(self.groups[k].0.as_str(), tty) {
                let ghost gpre = self.groups@;
                let g = self.groups.remove(k);
                let key = g.0;
                let mut recs = g.1;
                recs.push(p);
                self.groups.insert(k, (key, recs));
                proof {
                    assert(key@ == tty@);
                    assert(recs@ == gpre[k as int].1@.push(p));
                    assert(self.groups@ =~= gpre.update(k as int, (key, recs)));
                    assert(self@ =~= pre.update(k as int, (tty@, pre[k as int].1.push(p))));
                    assert(prem[k as int].0 == tty@);
                    assert(exists|i: int| 0 <= i < prem.len() && (#[trigger] prem[i]).0 == tty@);
                    let i0 = choose|i: int|
                        0 <= i < prem.len() && (#[trigger] prem[i]).0 == tty@;
                    assert(pre[i0].0 == tty@);
                    assert(i0 == k as int);
                    lemma_records_model_push(pre[k as int].1, p);
                    assert(self.model() =~= prem.update(
                        k as int,
                        (tty@, prem[k as int].1.push(process_model(p))),
                    ));
                    assert(self.model() == model_push_record(prem, tty@, process_model(p)));
                }
                return ;
            }
            k = k + 1;
        }
        let mut recs: Vec<Process> = Vec::new();
        recs.push(p);
        self.groups.push((tty.to_owned(), recs));
        proof {
            assert(recs@ =~= seq![p]);
            assert(self@ =~= pre.push((tty@, seq![p])));
            assert(forall|i: int| 0 <= i < prem.len() ==> (#[trigger] prem[i]).0 == pre[i].0);
            assert(!(exists|i: int| 0 <= i < prem.len() && (#[trigger] prem[i]).0 == tty@));
            assert(records_model(seq![p]) =~= seq![process_model(p)]);
            assert(self.model() =~= prem.push((tty@, seq![process_model(p)])));
            assert(self.model() == model_push_record(prem, tty@, process_model(p)));
        }
    }
}

/// The process-table header line, recognized by its fixed leading label.
pub open spec fn is_header_line(line: Seq<char>) -> bool {
    "  PID"@.is_prefix_of(line)
}

/// A command line that is exactly a known interactive-shell placeholder.
pub open spec fn is_shell_command(cmd: Seq<char>) -> bool {
    cmd == "-bash"@ || cmd == "-zsh"@
}

/// A line that contributes a record to the snapshot: not the header,
/// parseable, not the watchdog's own process, and not a bare shell
/// placeholder.
pub open spec fn line_kept(line: Seq<char>, self_pid: u32) -> bool {
    &&& !is_header_line(line)
    &&& line_wellformed(line)
    &&& line_pid(line) != self_pid as nat
    &&& !is_shell_command(line_command(line))
}

/// A line the builder must reject: not the header, yet not parseable.
pub open spec fn line_bad(line: Seq<char>) -> bool {
    &&& !is_header_line(line)
    &&& !line_wellformed(line)
}

/// The parse error a bad line produces.
pub open spec fn line_error(line: Seq<char>) -> ParseError {
    if tokens_of(line).len() < 4 {
        ParseError::MissingColumns
    } else {
        ParseError::InvalidPid
    }
}

/// The record a kept line contributes.
pub open spec fn line_record(line: Seq<char>) -> RecordModel {
    RecordModel { pid: line_pid(line), command: line_command(line) }
}

/// The snapshot model built by folding the kept lines in order.
pub open spec fn build_model(lines: Seq<Seq<char>>, self_pid: u32) -> Seq<
    (Seq<char>, Seq<RecordModel>),
>
    decreases lines.len(),
{
    if lines.len() == 0 {
        Seq::empty()
    } else {
        let prev = build_model(lines.drop_last(), self_pid);
        let line = lines.last();
        if line_kept(line, self_pid) {
            model_push_record(prev, line_tty(line), line_record(line))
        } else {
            prev
        }
    }
}

/// Build a snapshot from raw process-table text and the watchdog's own
/// process id: drop the header line, parse every other line, drop the
/// watchdog's own process and bare shell placeholders, and group the
/// surviving records by terminal. The first unparseable line is the error.
#[verifier::loop_isolation(false)]
pub fn make_process_map(text: &str, self_pid: u32) -> (r: Result<ProcessMap, ParseError>)
    ensures
        r is Ok <==> (forall|i: int|
            0 <= i < lines_of(text@).len() ==> !line_bad(#[trigger] lines_of(text@)[i])),
        r matches Ok(m) ==> m.wf() && m.model() == build_model(lines_of(text@), self_pid),
        r matches Err(e) ==> exists|i: int|
            {
                &&& 0 <= i < lines_of(text@).len()
                &&& line_bad(#[trigger] lines_of(text@)[i])
                &&& e == line_error(lines_of(text@)[i])
                &&& forall|j: int| 0 <= j < i ==> !line_bad(#[trigger] lines_of(text@)[j])
            },
{
    let ghost lseq = lines_of(text@);
    let lines = split_lines(text);
    proof {
        assert(lines@.len() == lines.deep_view().len());
    }
    let mut map = ProcessMap::new();
    let n = lines.len();
    let mut i: usize = 0;
    while i < n
        invariant
            i <= n,
            map.wf(),
            map.model() == build_model(lseq.take(i as int), self_pid),
            forall|j: int| 0 <= j < i ==> !line_bad(#[trigger] lseq[j]),
        decreases n - i,
    {
        let line: &String = &lines[i];
        let ghost lv = lseq[i as int];
        proof {
            assert(lines.deep_view()[i as int] == lines@[i as int]@);
            assert(lv == line@);
            assert(lseq.take(i + 1).drop_last() =~= lseq.take(i as int));
            assert(lseq.take(i + 1).last() == lv);
        }
        if str_starts_with(line.as_str(), "  PID") {
            proof {
                assert(!line_kept(lv, self_pid));
                assert(!line_bad(lv));
            }
        } else {
            match make_process(line.as_str()) {
                Err(e) => {
                    proof {
                        assert(line_bad(lv));
                        assert(e == line_error(lv));
                    }
                    return Err(e);
                },
                Ok((tty, p)) => {
                    if p.pid == self_pid {
                        proof {
                            assert(!line_kept(lv, self_pid));
                            assert(!line_bad(lv));
                        }
                    } else if str_eq(p.command.as_str(), "-bash") || str_eq(
                        p.command.as_str(),
                        "-zsh",
                    ) {
                        proof {
                            assert(is_shell_command(line_command(lv)));
                            assert(!line_kept(lv, self_pid));
                            assert(!line_bad(lv));
                        }
                    } else {
                        proof {
                            assert(line_kept(lv, self_pid));
                            assert(process_model(p) == line_record(lv));
                            assert(tty@ == line_tty(lv));
                        }
                        map.push_record(tty.as_str(), p);
                    }
                },
            }
        }
        i = i + 1;
    }
    proof {
        assert(lseq.take(n as int) =~= lseq);
    }
    Ok(map)
}

/// Terminals of a grouped model are distinct.
pub open spec fn model_keys_distinct(m: Seq<(Seq<char>, Seq<RecordModel>)>) -> bool {
    forall|i: int, j: int| 0 <= i < j < m.len() ==> (#[trigger] m[i]).0 != (#[trigger] m[j]).0
}

/// Every group of a grouped model holds at least one record.
pub open spec fn model_groups_nonempty(m: Seq<(Seq<char>, Seq<RecordModel>)>) -> bool {
    forall|i: int| 0 <= i < m.len() ==> (#[trigger] m[i]).1.len() > 0
}

/// No record of the model carries the given pid or a shell placeholder
/// command.
pub open spec fn model_records_clean(m: Seq<(Seq<char>, Seq<RecordModel>)>, self_pid: u32) -> bool {
    forall|i: int, j: int|
        0 <= i < m.len() && 0 <= j < m[i].1.len() ==> (#[trigger] m[i].1[j]).pid != self_pid as nat
            && !is_shell_command(m[i].1[j].command)
}

proof fn lemma_model_push_record_clean(
    m: Seq<(Seq<char>, Seq<RecordModel>)>,
    tty: Seq<char>,
    rec: RecordModel,
    self_pid: u32,
)
    requires
        model_keys_distinct(m),
        model_groups_nonempty(m),
        model_records_clean(m, self_pid),
        rec.pid != self_pid as nat,
        !is_shell_command(rec.command),
    ensures
        model_keys_distinct(model_push_record(m, tty, rec)),
        model_groups_nonempty(model_push_record(m, tty, rec)),
        model_records_clean(model_push_record(m, tty, rec), self_pid),
{
    let r = model_push_record(m, tty, rec);
    if exists|i: int| 0 <= i < m.len() && (#[trigger] m[i]).0 == tty {
        let i0 = choose|i: int| 0 <= i < m.len() && (#[trigger] m[i]).0 == tty;
        assert(r == m.update(i0, (tty, m[i0].1.push(rec))));
        assert(r[i0].0 == m[i0].0);
        assert(forall|k: int| 0 <= k < m.len() && k != i0 ==> r[k] == m[k]);
        assert(r[i0].1 == m[i0].1.push(rec));
        assert(forall|j: int| 0 <= j < m[i0].1.len() ==> r[i0].1[j] == m[i0].1[j]);
        assert(r[i0].1[m[i0].1.len() as int] == rec);
        assert(model_records_clean(r, self_pid)) by {
            assert(forall|i: int, j: int|
                0 <= i < r.len() && 0 <= j < r[i].1.len() && i != i0 ==> (#[trigger] r[i].1[j]).pid
                    != self_pid as nat && !is_shell_command(r[i].1[j].command));
            assert(forall|j: int|
                0 <= j < r[i0].1.len() ==> (#[trigger] r[i0].1[j]).pid != self_pid as nat
                    && !is_shell_command(r[i0].1[j].command));
        }
    } else {
        assert(r == m.push((tty, seq![rec])));
        assert(forall|k: int| 0 <= k < m.len() ==> r[k] == m[k]);
        assert(r[m.len() as int] == (tty, seq![rec]));
        assert(r[m.len() as int].1[0] == rec);
        assert(model_records_clean(r, self_pid)) by {
            assert(forall|i: int, j: int|
                0 <= i < m.len() && 0 <= j < r[i].1.len() ==> (#[trigger] r[i].1[j]).pid
                    != self_pid as nat && !is_shell_command(r[i].1[j].command));
            assert(forall|j: int|
                0 <= j < r[m.len() as int].1.len() ==> (#[trigger] r[m.len() as int].1[j]).pid
                    != self_pid as nat && !is_shell_command(r[m.len() as int].1[j].command));
        }
    }
}

proof fn lemma_build_model_clean(lines: Seq<Seq<char>>, self_pid: u32)
    ensures
        model_keys_distinct(build_model(lines, self_pid)),
        model_groups_nonempty(build_model(lines, self_pid)),
        model_records_clean(build_model(lines, self_pid), self_pid),
    decreases lines.len(),
{
    if lines.len() > 0 {
        lemma_build_model_clean(lines.drop_last(), self_pid);
        let line = lines.last();
        if line_kept(line, self_pid) {
            lemma_model_push_record_clean(
                build_model(lines.drop_last(), self_pid),
                line_tty(line),
                line_record(line),
                self_pid,
            );
        }
    }
}

/// Self-exclusion: a snapshot built from any process-table text never
/// holds a record whose pid is the watchdog's own, whatever the text says.
pub proof fn lemma_self_excluded(text: Seq<char>, self_pid: u32)
    ensures
        forall|i: int, j: int|
            0 <= i < build_model(lines_of(text), self_pid).len() && 0 <= j < build_model(
                lines_of(text),
                self_pid,
            )[i].1.len() ==> (#[trigger] build_model(lines_of(text), self_pid)[i].1[j]).pid
                != self_pid as nat,
{
    lemma_build_model_clean(lines_of(text), self_pid);
}

/// Shell filtering: a snapshot built from any process-table text never
/// holds a record whose command line is a bare shell placeholder.
pub proof fn lemma_shell_excluded(text: Seq<char>, self_pid: u32)
    ensures
        forall|i: int, j: int|
            0 <= i < build_model(lines_of(text), self_pid).len() && 0 <= j < build_model(
                lines_of(text),
                self_pid,
            )[i].1.len() ==> !is_shell_command(
                (#[trigger] build_model(lines_of(text), self_pid)[i].1[j]).command,
            ),
{
    lemma_build_model_clean(lines_of(text), self_pid);
}

/// Structure of a built snapshot: terminals are distinct, and every
/// terminal present hosts at least one surviving record.
pub proof fn lemma_built_groups(text: Seq<char>, self_pid: u32)
    ensures
        model_keys_distinct(build_model(lines_of(text), self_pid)),
        model_groups_nonempty(build_model(lines_of(text), self_pid)),
{
    lemma_build_model_clean(lines_of(text), self_pid);
}

/// A snapshot and its model agree group for group: same terminals, and
/// groups of the same length.
pub proof fn lemma_model_group_lens(m: &ProcessMap)
    ensures
        m.model().len() == m@.len(),
        forall|i: int|
            0 <= i < m@.len() ==> (#[trigger] m.model()[i]).0 == m@[i].0 && m.model()[i].1.len()
                == m@[i].1.len(),
{
}

} // verus!

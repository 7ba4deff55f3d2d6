//! Process details: what the system's process table tells about the
//! process that owns a socket.
use vstd::prelude::*;
use crate::text::{join, string_of};
use crate::types::{clone_opt_string, opt_text, ProcessInfo, ProcessInfoView};

verus! {

/// One process as the system's process table shows it, with the name of its
/// user already looked up in the user table (`None` where that failed).
#[derive(Debug)]
pub struct ProcessSnapshot {
    pub pid: u32,
    pub name: String,
    pub cmd: Vec<String>,
    pub user: Option<String>,
    pub parent_pid: Option<u32>,
    pub memory: u64,
    pub virtual_memory: u64,
    pub run_time: u64,
    pub start_time: u64,
    pub cwd: Option<String>,
    pub exe: Option<String>,
}

pub struct ProcessSnapshotView {
    pub pid: u32,
    pub name: Seq<char>,
    pub cmd: Seq<Seq<char>>,
    pub user: Option<Seq<char>>,
    pub parent_pid: Option<u32>,
    pub memory: u64,
    pub virtual_memory: u64,
    pub run_time: u64,
    pub start_time: u64,
    pub cwd: Option<Seq<char>>,
    pub exe: Option<Seq<char>>,
}

/// The texts of a sequence of strings.
pub open spec fn texts(v: Seq<String>) -> Seq<Seq<char>> {
    v.map_values(|s: String| s@)
}

impl View for ProcessSnapshot {
    type V = ProcessSnapshotView;

    open spec fn view(&self) -> ProcessSnapshotView {
        ProcessSnapshotView {
            pid: self.pid,
            name: self.name@,
            cmd: texts(self.cmd@),
            user: opt_text(self.user),
            parent_pid: self.parent_pid,
            memory: self.memory,
            virtual_memory: self.virtual_memory,
            run_time: self.run_time,
            start_time: self.start_time,
            cwd: opt_text(self.cwd),
            exe: opt_text(self.exe),
        }
    }
}

pub open spec fn snapshot_views(v: Seq<ProcessSnapshot>) -> Seq<ProcessSnapshotView> {
    v.map_values(|p: ProcessSnapshot| p@)
}

/// The first process of the table with PID `pid`.
pub open spec fn lookup(table: Seq<ProcessSnapshotView>, pid: u32) -> Option<ProcessSnapshotView>
    decreases table.len(),
{
    if table.len() == 0 {
        None
    } else if table[0].pid == pid {
        Some(table[0])
    } else {
        lookup(table.drop_first(), pid)
    }
}

/// The command line shown for a process: its arguments joined by spaces, or
/// its name when it has none.
pub open spec fn command_line(p: ProcessSnapshotView) -> Seq<char> {
    if p.cmd.len() == 0 {
        p.name
    } else {
        join(p.cmd, seq![' '])
    }
}

/// The details of process `pid`: from its entry in the table, with the
/// parent's name looked up there too; the user falls back to
/// `fallback_user` where the user table had no name. A process the table
/// does not hold has empty details and the fallback user.
pub open spec fn spec_enrich(pid: u32, fallback_user: Seq<char>, table: Seq<ProcessSnapshotView>) -> ProcessInfoView {
    match lookup(table, pid) {
        Some(p) => ProcessInfoView {
            pid,
            name: p.name,
            cmdline: command_line(p),
            user: match p.user {
                Some(u) => u,
                None => fallback_user,
            },
            parent_pid: p.parent_pid,
            parent_name: match p.parent_pid {
                Some(pp) => match lookup(table, pp) {
                    Some(q) => Some(q.name),
                    None => None,
                },
                None => None,
            },
            memory_bytes: p.memory,
            virtual_memory_bytes: p.virtual_memory,
            run_time_secs: p.run_time,
            start_time_secs: p.start_time,
            cwd: p.cwd,
            exe: p.exe,
        },
        None => ProcessInfoView {
            pid,
            name: seq![],
            cmdline: seq![],
            user: fallback_user,
            parent_pid: None,
            parent_name: None,
            memory_bytes: 0,
            virtual_memory_bytes: 0,
            run_time_secs: 0,
            start_time_secs: 0,
            cwd: None,
            exe: None,
        },
    }
}

/// The index of the first process with PID `pid`.
pub fn find_process(table: &Vec<ProcessSnapshot>, pid: u32) -> (r: Option<usize>)
    ensures
        match r {
            Some(i) => i < table@.len() && lookup(snapshot_views(table@), pid) == Some(
                table@[i as int]@,
            ),
            None => lookup(snapshot_views(table@), pid) is None,
        },
{
    let ghost t = snapshot_views(table@);
    let mut i: usize = 0;
    assert(t.skip(0) =~= t);
    while i < table.len()
        invariant
            t == snapshot_views(table@),
            i <= table@.len(),
            lookup(t, pid) == lookup(t.skip(i as int), pid),
        decreases table@.len() - i,
    {
        assert(t.skip(i as int)[0] == table@[i as int]@);
        assert(t.skip(i as int).drop_first() =~= t.skip(i + 1));
        if table[i].pid == pid {
            return Some(i);
        }
        i = i + 1;
    }
    None
}

/// The strings joined with `sep` between them.
pub fn join_strings(parts: &Vec<String>, sep: &str) -> (r: String)
    ensures
        r@ == join(texts(parts@), sep@),
{
    let mut r = String::new();
    let mut i: usize = 0;
    while i < parts.len()
        invariant
            i <= parts@.len(),
            r@ == join(texts(parts@).take(i as int), sep@),
        decreases parts@.len() - i,
    {
        let ghost before = r@;
        assert(texts(parts@).take(i + 1).drop_last() =~= texts(parts@).take(i as int));
        assert(texts(parts@)[i as int] == parts@[i as int]@);
        if i > 0 {
            r.append(sep);
        }
        r.append(parts[i].as_str());
        if i == 0 {
            assert(r@ =~= join(texts(parts@).take(1), sep@));
        }
        i = i + 1;
    }
    assert(texts(parts@).take(parts@.len() as int) =~= texts(parts@));
    r
}

/// Builds the details of process `pid` from the process table; the user
/// falls back to `fallback_user`.
pub fn enrich_process(pid: u32, fallback_user: &str, table: &Vec<ProcessSnapshot>) -> (r: ProcessInfo)
    ensures
        r@ == spec_enrich(pid, fallback_user@, snapshot_views(table@)),
{
    match find_process(table, pid) {
        Some(i) => {
            let p = &table[i];
            let user = match &p.user {
                Some(u) => u.clone(),
                None => String::from_str(fallback_user),
            };
            let parent_name = match p.parent_pid {
                Some(pp) => match find_process(table, pp) {
                    Some(j) => Some(table[j].name.clone()),
                    None => None,
                },
                None => None,
            };
            let cmdline = if p.cmd.len() == 0 {
                p.name.clone()
            } else {
                let mut sp: Vec<char> = Vec::new();
                sp.push(' ');
                let sep = string_of(&sp);
                assert(sep@ =~= seq![' ']);
                join_strings(&p.cmd, sep.as_str())
            };
            ProcessInfo {
                pid,
                name: p.name.clone(),
                cmdline,
                user,
                parent_pid: p.parent_pid,
                parent_name,
                memory_bytes: p.memory,
                virtual_memory_bytes: p.virtual_memory,
                run_time_secs: p.run_time,
                start_time_secs: p.start_time,
                cwd: clone_opt_string(&p.cwd),
                exe: clone_opt_string(&p.exe),
            }
        },
        None => {
            let r = ProcessInfo {
                pid,
                name: String::new(),
                cmdline: String::new(),
                user: String::from_str(fallback_user),
                parent_pid: None,
                parent_name: None,
                memory_bytes: 0,
                virtual_memory_bytes: 0,
                run_time_secs: 0,
                start_time_secs: 0,
                cwd: None,
                exe: None,
            };
            assert(r@.name =~= Seq::<char>::empty());
            assert(r@.cmdline =~= Seq::<char>::empty());
            r
        },
    }
}

/// Looking a PID up finds the first process of the table with that PID, and
/// nothing when no process has it.
proof fn lemma_lookup_first(table: Seq<ProcessSnapshotView>, pid: u32, i: int)
    requires
        0 <= i <= table.len(),
        forall|j: int| 0 <= j < i ==> #[trigger] table[j].pid != pid,
        i < table.len() ==> table[i].pid == pid,
    ensures
        lookup(table, pid) == (if i < table.len() {
            Some(table[i])
        } else {
            None
        }),
    decreases i,
{
    if i > 0 {
        let rest = table.drop_first();
        assert forall|j: int| 0 <= j < i - 1 implies #[trigger] rest[j].pid != pid by {
            assert(rest[j] == table[j + 1]);
        }
        assert(table[0].pid != pid);
        lemma_lookup_first(rest, pid, i - 1);
        if i < table.len() {
            assert(rest[i - 1] == table[i]);
        }
    }
}

/// The details of a process come from the first entry of the table with its
/// PID: name, memory (resident and virtual), times, working directory,
/// executable and parent are that entry's; the command line is its
/// arguments joined by spaces (its name without arguments); the user is its
/// user, else the fallback; the parent's name is that of the first entry
/// with the parent's PID.
pub proof fn lemma_enrich_copies_the_process(
    pid: u32,
    fallback_user: Seq<char>,
    table: Seq<ProcessSnapshotView>,
    i: int,
)
    requires
        0 <= i < table.len(),
        table[i].pid == pid,
        forall|j: int| 0 <= j < i ==> #[trigger] table[j].pid != pid,
    ensures
        spec_enrich(pid, fallback_user, table).pid == pid,
        spec_enrich(pid, fallback_user, table).name == table[i].name,
        spec_enrich(pid, fallback_user, table).memory_bytes == table[i].memory,
        spec_enrich(pid, fallback_user, table).virtual_memory_bytes == table[i].virtual_memory,
        spec_enrich(pid, fallback_user, table).run_time_secs == table[i].run_time,
        spec_enrich(pid, fallback_user, table).start_time_secs == table[i].start_time,
        spec_enrich(pid, fallback_user, table).cwd == table[i].cwd,
        spec_enrich(pid, fallback_user, table).exe == table[i].exe,
        spec_enrich(pid, fallback_user, table).parent_pid == table[i].parent_pid,
        spec_enrich(pid, fallback_user, table).user == (match table[i].user {
            Some(u) => u,
            None => fallback_user,
        }),
        spec_enrich(pid, fallback_user, table).cmdline == (if table[i].cmd.len() == 0 {
            table[i].name
        } else {
            join(table[i].cmd, seq![' '])
        }),
        forall|k: int|
            0 <= k < table.len() && table[i].parent_pid == Some(table[k].pid) && (forall|j: int|
                0 <= j < k ==> #[trigger] table[j].pid != table[k].pid) ==> spec_enrich(
                pid,
                fallback_user,
                table,
            ).parent_name == Some(#[trigger] table[k].name),
{
    lemma_lookup_first(table, pid, i);
    assert forall|k: int|
        0 <= k < table.len() && table[i].parent_pid == Some(table[k].pid) && (forall|j: int|
            0 <= j < k ==> #[trigger] table[j].pid != table[k].pid) implies spec_enrich(
        pid,
        fallback_user,
        table,
    ).parent_name == Some(#[trigger] table[k].name) by {
        lemma_lookup_first(table, table[k].pid, k);
    }
}

/// A PID that no process of the table has gets empty details, no parent,
/// zero memory and times, and the fallback user.
pub proof fn lemma_enrich_unknown_process(pid: u32, fallback_user: Seq<char>, table: Seq<ProcessSnapshotView>)
    requires
        forall|j: int| 0 <= j < table.len() ==> #[trigger] table[j].pid != pid,
    ensures
        spec_enrich(pid, fallback_user, table) == (ProcessInfoView {
            pid,
            name: seq![],
            cmdline: seq![],
            user: fallback_user,
            parent_pid: None,
            parent_name: None,
            memory_bytes: 0,
            virtual_memory_bytes: 0,
            run_time_secs: 0,
            start_time_secs: 0,
            cwd: None,
            exe: None,
        }),
{
    lemma_lookup_first(table, pid, table.len() as int);
}

} // verus!

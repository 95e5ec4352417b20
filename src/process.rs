//! Process topology and the decisions of the parent and child lifecycles.
//!
//! Index 0 of a topology is the privileged parent; every other index is a
//! child started from the same executable. Children may be linked with each
//! other; the parent then hands each end of a fresh socket pair to the two
//! children over their parent channels.

use vstd::prelude::*;
use crate::error::Error;
use crate::imsg::{Message, CONNECT};

verus! {

/// Descriptor number of standard error.
pub const STDERR_FILENO: i32 = 2;

/// The descriptor at which a child finds its channel to the parent.
pub const PRIVSEP_FD: i32 = STDERR_FILENO + 1;

/// Runtime options of the setup.
#[derive(Clone, Debug, Default)]
pub struct Config {
    /// Whether the program runs in the foreground.
    pub foreground: bool,
    /// The log filter to use when the environment sets none.
    pub log_level: Option<String>,
}

/// General options of the setup.
#[derive(Clone, Debug, Default)]
pub struct Options {
    /// Do not require root and do not drop privileges.
    pub disable_privdrop: bool,
    /// The user to drop privileges to.
    pub username: String,
    /// The runtime options.
    pub config: Config,
}

/// One entry of a topology: a process name and whether it gets a channel.
#[derive(Clone, Copy, Debug)]
pub struct Process {
    /// The process name, as the child sees it in `argv[0]`.
    pub name: &'static str,
    /// Whether this process is connected.
    pub connect: bool,
}

/// Whether two strings are the same.
fn same_name(a: &str, b: &str) -> (r: bool)
    ensures
        r == (a@ == b@),
{
    let x = a.to_owned();
    let y = b.to_owned();
    x == y
}

/// The name the first process of every topology carries.
pub open spec fn parent_name() -> Seq<char> {
    seq!['p', 'a', 'r', 'e', 'n', 't']
}

/// Whether `name` is the parent's name.
pub fn is_parent_name(name: &str) -> (r: bool)
    ensures
        r == (name@ == parent_name()),
{
    let p = "parent";
    proof {
        reveal_strlit("parent");
    }
    assert(p@ =~= parent_name());
    same_name(name, p)
}

/// The checks before the parent starts any child: privileges are only
/// dropped by a parent that runs as root (effective uid `euid`), and the
/// first process must be the parent.
pub fn check_parent(processes: &Vec<Process>, options: &Options, euid: u32) -> (r: Result<
    (),
    Error,
>)
    ensures
        !options.disable_privdrop && euid != 0 ==> r == Err::<(), Error>(Error::PermissionDenied),
        (options.disable_privdrop || euid == 0) && (processes@.len() == 0
            || processes@[0].name@ != parent_name()) ==> r == Err::<(), Error>(
            Error::MissingParent,
        ),
        (options.disable_privdrop || euid == 0) && processes@.len() > 0 && processes@[0].name@
            == parent_name() ==> r == Ok::<(), Error>(()),
{
    if !options.disable_privdrop && euid != 0 {
        return Err(Error::PermissionDenied);
    }
    if processes.len() == 0 || !is_parent_name(processes[0].name) {
        return Err(Error::MissingParent);
    }
    Ok(())
}

/// The second argument a child is started with: `-d` in the foreground,
/// empty otherwise.
pub fn foreground_flag(foreground: bool) -> (r: &'static str)
    ensures
        r@ == (if foreground {
            seq!['-', 'd']
        } else {
            Seq::<char>::empty()
        }),
{
    if foreground {
        proof {
            reveal_strlit("-d");
        }
        "-d"
    } else {
        proof {
            reveal_strlit("");
        }
        ""
    }
}

/// The log filter handed to a child: the parent's own `RUST_LOG` if set
/// (`env`), else the configured level, else empty.
pub fn log_filter(env: Option<String>, config: &Config) -> (r: String)
    ensures
        r@ == match env {
            Some(v) => v@,
            None => match config.log_level {
                Some(l) => l@,
                None => Seq::<char>::empty(),
            },
        },
{
    match env {
        Some(v) => v,
        None => match &config.log_level {
            Some(l) => l.clone(),
            None => String::new(),
        },
    }
}

/// The directory a child is confined to: the user's home if it is a
/// directory, else `/var/empty`.
pub fn chroot_dir(home: &str, home_is_dir: bool) -> (r: String)
    ensures
        home_is_dir ==> r@ == home@,
        !home_is_dir ==> r@ == seq!['/', 'v', 'a', 'r', '/', 'e', 'm', 'p', 't', 'y'],
{
    if home_is_dir {
        home.to_owned()
    } else {
        let d = "/var/empty";
        proof {
            reveal_strlit("/var/empty");
        }
        d.to_owned()
    }
}

/// `name` is one of `names`.
pub open spec fn known(names: Seq<&'static str>, name: &str) -> bool {
    exists|i: int| 0 <= i < names.len() && (#[trigger] names[i])@ == name@
}

/// The declarations link processes `i` and `j`, in either direction.
pub open spec fn declared(
    names: Seq<&'static str>,
    edges: Seq<(&'static str, &'static str)>,
    i: int,
    j: int,
) -> bool {
    exists|k: int|
        0 <= k < edges.len() && {
            let e = #[trigger] edges[k];
            (e.0@ == names[i]@ && e.1@ == names[j]@) || (e.0@ == names[j]@ && e.1@ == names[i]@)
        }
}

/// Entry `j` of the row of process `i` in a resolved topology: every process
/// is connected to the parent, and to each other process it is linked with,
/// but never to itself.
pub open spec fn resolved_entry(
    names: Seq<&'static str>,
    edges: Seq<(&'static str, &'static str)>,
    i: int,
    j: int,
) -> Process {
    Process { name: names[j], connect: j == 0 || (i != j && declared(names, edges, i, j)) }
}

/// Whether the declarations link processes `i` and `j`.
fn declared_exec(
    names: &Vec<&'static str>,
    edges: &Vec<(&'static str, &'static str)>,
    i: usize,
    j: usize,
) -> (r: bool)
    requires
        i < names@.len(),
        j < names@.len(),
    ensures
        r == declared(names@, edges@, i as int, j as int),
{
    let mut k: usize = 0;
    while k < edges.len()
        invariant
            k <= edges@.len(),
            i < names@.len(),
            j < names@.len(),
            forall|q: int|
                0 <= q < k ==> !({
                    let e = #[trigger] edges@[q];
                    (e.0@ == names@[i as int]@ && e.1@ == names@[j as int]@) || (e.0@
                        == names@[j as int]@ && e.1@ == names@[i as int]@)
                }),
        decreases edges.len() - k,
    {
        let e = edges[k];
        if (same_name(e.0, names[i]) && same_name(e.1, names[j])) || (same_name(e.0, names[j])
            && same_name(e.1, names[i])) {
            return true;
        }
        k += 1;
    }
    false
}

/// Whether `name` is one of `names`.
fn known_exec(names: &Vec<&'static str>, name: &str) -> (r: bool)
    ensures
        r == known(names@, name),
{
    let mut i: usize = 0;
    while i < names.len()
        invariant
            i <= names@.len(),
            forall|q: int| 0 <= q < i ==> (#[trigger] names@[q])@ != name@,
        decreases names.len() - i,
    {
        if same_name(names[i], name) {
            return true;
        }
        i += 1;
    }
    false
}

/// Resolves a topology from its process names and its links, each declared
/// on one side or both: the first name must be the parent's, and every link
/// must name declared processes. The result has one row per process; row
/// `i` lists every process with whether `i` is connected to it.
pub fn resolve_topology(
    names: &Vec<&'static str>,
    edges: &Vec<(&'static str, &'static str)>,
) -> (r: Result<Vec<Vec<Process>>, Error>)
    ensures
        names@.len() == 0 || names@[0]@ != parent_name() ==> r == Err::<Vec<Vec<Process>>, Error>(
            Error::MissingParent,
        ),
        names@.len() > 0 && names@[0]@ == parent_name() && (exists|k: int|
            0 <= k < edges@.len() && !(known(names@, (#[trigger] edges@[k]).0) && known(
                names@,
                edges@[k].1,
            ))) ==> r == Err::<Vec<Vec<Process>>, Error>(Error::InvalidProcess),
        names@.len() > 0 && names@[0]@ == parent_name() && (forall|k: int|
            0 <= k < edges@.len() ==> known(names@, (#[trigger] edges@[k]).0) && known(
                names@,
                edges@[k].1,
            )) ==> r is Ok,
        r is Ok ==> {
            let rows = r->Ok_0@;
            &&& names@.len() > 0 && names@[0]@ == parent_name()
            &&& forall|k: int|
                0 <= k < edges@.len() ==> known(names@, (#[trigger] edges@[k]).0) && known(
                    names@,
                    edges@[k].1,
                )
            &&& rows.len() == names@.len()
            &&& forall|i: int| 0 <= i < rows.len() ==> (#[trigger] rows[i])@.len() == names@.len()
            &&& forall|i: int, j: int|
                0 <= i < rows.len() && 0 <= j < rows.len() ==> #[trigger] rows[i]@[j]
                    == resolved_entry(names@, edges@, i, j)
        },
{
    if names.len() == 0 || !is_parent_name(names[0]) {
        return Err(Error::MissingParent);
    }
    let mut k: usize = 0;
    while k < edges.len()
        invariant
            k <= edges@.len(),
            names@.len() > 0 && names@[0]@ == parent_name(),
            forall|q: int|
                0 <= q < k ==> known(names@, (#[trigger] edges@[q]).0) && known(
                    names@,
                    edges@[q].1,
                ),
        decreases edges.len() - k,
    {
        if !known_exec(names, edges[k].0) || !known_exec(names, edges[k].1) {
            return Err(Error::InvalidProcess);
        }
        k += 1;
    }
    let n = names.len();
    let mut rows: Vec<Vec<Process>> = Vec::new();
    let mut i: usize = 0;
    while i < n
        invariant
            n == names@.len(),
            names@.len() > 0 && names@[0]@ == parent_name(),
            forall|q: int|
                0 <= q < edges@.len() ==> known(names@, (#[trigger] edges@[q]).0) && known(
                    names@,
                    edges@[q].1,
                ),
            i <= n,
            rows@.len() == i,
            forall|a: int| 0 <= a < i ==> (#[trigger] rows@[a])@.len() == n,
            forall|a: int, b: int|
                0 <= a < i && 0 <= b < n ==> #[trigger] rows@[a]@[b] == resolved_entry(
                    names@,
                    edges@,
                    a,
                    b,
                ),
        decreases n - i,
    {
        let mut row: Vec<Process> = Vec::new();
        let mut j: usize = 0;
        while j < n
            invariant
                n == names@.len(),
                i < n,
                j <= n,
                row@.len() == j,
                forall|b: int|
                    0 <= b < j ==> (#[trigger] row@[b]) == resolved_entry(
                        names@,
                        edges@,
                        i as int,
                        b,
                    ),
            decreases n - j,
        {
            let connect = j == 0 || (i != j && declared_exec(names, edges, i, j));
            row.push(Process { name: names[j], connect });
            j += 1;
        }
        rows.push(row);
        i += 1;
    }
    Ok(rows)
}

/// The top-level list of a topology: the parent unconnected, every child
/// connected.
pub open spec fn process_list(names: Seq<&'static str>) -> Seq<Process> {
    Seq::new(names.len(), |i: int| Process { name: names[i], connect: i != 0 })
}

/// The top-level list of a topology: the parent unconnected, every child
/// connected.
pub fn topology_processes(names: &Vec<&'static str>) -> (r: Vec<Process>)
    ensures
        r@ == process_list(names@),
{
    let mut r: Vec<Process> = Vec::new();
    let mut i: usize = 0;
    while i < names.len()
        invariant
            i <= names@.len(),
            r@.len() == i,
            forall|a: int|
                0 <= a < i ==> (#[trigger] r@[a]) == (Process { name: names@[a], connect: a != 0 }),
        decreases names.len() - i,
    {
        r.push(Process { name: names[i], connect: i != 0 });
        i += 1;
    }
    assert(r@ =~= process_list(names@));
    r
}

/// Row `a` of `rows` connects `a` to `b`.
pub open spec fn linked(rows: Seq<Vec<Process>>, a: int, b: int) -> bool {
    0 <= a < rows.len() && 0 <= b < rows[a]@.len() && rows[a]@[b].connect
}

/// `(a, b)` is a child link the parent brokers: two distinct connected
/// children, in ascending order, linked in the row of either.
pub open spec fn is_edge(processes: Seq<Process>, rows: Seq<Vec<Process>>, a: int, b: int) -> bool {
    &&& 1 <= a < b < processes.len()
    &&& processes[a].connect
    &&& processes[b].connect
    &&& linked(rows, a, b) || linked(rows, b, a)
}

/// `x` comes before `y` in lexicographic order.
pub open spec fn lex_lt(x: (usize, usize), y: (usize, usize)) -> bool {
    x.0 < y.0 || (x.0 == y.0 && x.1 < y.1)
}

/// The child links the parent brokers, each once as `(a, b)` with `a < b`,
/// in ascending order.
pub fn peer_pairs(processes: &Vec<Process>, rows: &Vec<Vec<Process>>) -> (r: Vec<(usize, usize)>)
    ensures
        forall|i: int|
            0 <= i < r@.len() ==> is_edge(processes@, rows@, (#[trigger] r@[i]).0 as int, r@[i].1 as int),
        forall|a: usize, b: usize|
            is_edge(processes@, rows@, a as int, b as int) ==> #[trigger] r@.contains((a, b)),
        forall|i: int, j: int| 0 <= i < j < r@.len() ==> lex_lt(r@[i], r@[j]),
{
    let n = processes.len();
    let mut r: Vec<(usize, usize)> = Vec::new();
    let mut a: usize = 1;
    while a < n
        invariant
            n == processes@.len(),
            1 <= a,
            forall|i: int|
                0 <= i < r@.len() ==> is_edge(processes@, rows@, (#[trigger] r@[i]).0 as int, r@[i].1 as int),
            forall|i: int| 0 <= i < r@.len() ==> (#[trigger] r@[i]).0 < a,
            forall|x: usize, y: usize|
                x < a && is_edge(processes@, rows@, x as int, y as int) ==> #[trigger] r@.contains(
                    (x, y),
                ),
            forall|i: int, j: int| 0 <= i < j < r@.len() ==> lex_lt(r@[i], r@[j]),
        decreases n - a,
    {
        let mut b: usize = a + 1;
        while b < n
            invariant
                n == processes@.len(),
                1 <= a < n,
                a < b,
                forall|i: int|
                    0 <= i < r@.len() ==> is_edge(processes@, rows@, (#[trigger] r@[i]).0 as int, r@[i].1 as int),
                forall|i: int| 0 <= i < r@.len() ==> lex_lt(#[trigger] r@[i], (a, b)),
                forall|x: usize, y: usize|
                    (x < a || (x == a && y < b)) && is_edge(processes@, rows@, x as int, y as int)
                        ==> #[trigger] r@.contains((x, y)),
                forall|i: int, j: int| 0 <= i < j < r@.len() ==> lex_lt(r@[i], r@[j]),
            decreases n - b,
        {
            let ab = rows.len() > a && rows[a].len() > b && rows[a][b].connect;
            let ba = rows.len() > b && rows[b].len() > a && rows[b][a].connect;
            if processes[a].connect && processes[b].connect && (ab || ba) {
                let ghost before = r@;
                r.push((a, b));
                assert forall|x: usize, y: usize|
                    (x < a || (x == a && y < b + 1)) && is_edge(processes@, rows@, x as int, y as int)
                        implies #[trigger] r@.contains((x, y)) by {
                    if x == a && y == b {
                        assert(r@[before.len() as int] == (x, y));
                    } else {
                        assert(before.contains((x, y)));
                        let w = choose|w: int| 0 <= w < before.len() && before[w] == (x, y);
                        assert(r@[w] == (x, y));
                    }
                }
            } else {
                assert forall|x: usize, y: usize|
                    (x < a || (x == a && y < b + 1)) && is_edge(processes@, rows@, x as int, y as int)
                        implies #[trigger] r@.contains((x, y)) by {
                    if x == a && y == b {
                        assert(false);
                    }
                }
            }
            b += 1;
        }
        a += 1;
    }
    r
}

/// The children that `pairs` hands a channel to child `c` from.
pub open spec fn delivered_to(pairs: Seq<(usize, usize)>, c: int) -> Set<int> {
    Set::new(
        |p: int|
            exists|i: int|
                0 <= i < pairs.len() && ((#[trigger] pairs[i]).0 == c && pairs[i].1 == p || pairs[i].1
                    == c && pairs[i].0 == p),
    )
}

/// The children a child with topology row `row` waits for.
pub open spec fn expected_of(row: Seq<Process>) -> Set<int> {
    Set::new(|p: int| 1 <= p < row.len() && row[p].connect)
}

/// A topology whose child links are the same in both directions and never
/// link a child to itself, with every child connected.
pub open spec fn consistent(processes: Seq<Process>, rows: Seq<Vec<Process>>) -> bool {
    &&& rows.len() == processes.len()
    &&& forall|i: int| 0 <= i < rows.len() ==> (#[trigger] rows[i])@.len() == processes.len()
    &&& forall|i: int| 1 <= i < processes.len() ==> (#[trigger] processes[i]).connect
    &&& forall|a: int, b: int|
        1 <= a < rows.len() && 1 <= b < rows.len() ==> #[trigger] linked(rows, a, b) == linked(
            rows,
            b,
            a,
        )
    &&& forall|c: int| 1 <= c < rows.len() ==> !(#[trigger] rows[c])@[c].connect
}

/// On a consistent topology, the channels the parent brokers reach every
/// child from exactly the children it waits for.
pub proof fn lemma_brokering_matches_waits(
    processes: Seq<Process>,
    rows: Seq<Vec<Process>>,
    pairs: Seq<(usize, usize)>,
    c: int,
)
    requires
        consistent(processes, rows),
        forall|i: int|
            0 <= i < pairs.len() ==> is_edge(processes, rows, (#[trigger] pairs[i]).0 as int, pairs[i].1 as int),
        forall|a: usize, b: usize|
            is_edge(processes, rows, a as int, b as int) ==> #[trigger] pairs.contains((a, b)),
        processes.len() <= usize::MAX,
        1 <= c < processes.len(),
    ensures
        delivered_to(pairs, c) == expected_of(rows[c]@),
{
    assert forall|p: int| delivered_to(pairs, c).contains(p) implies expected_of(rows[c]@).contains(
        p,
    ) by {
        let i = choose|i: int|
            0 <= i < pairs.len() && ((#[trigger] pairs[i]).0 == c && pairs[i].1 == p || pairs[i].1
                == c && pairs[i].0 == p);
        assert(is_edge(processes, rows, pairs[i].0 as int, pairs[i].1 as int));
        assert(linked(rows, c, p) == linked(rows, p, c));
    }
    assert forall|p: int| expected_of(rows[c]@).contains(p) implies delivered_to(pairs, c).contains(
        p,
    ) by {
        assert(p != c);
        if c < p {
            assert(is_edge(processes, rows, c, p));
            assert(pairs.contains((c as usize, p as usize)));
            let i = choose|i: int| 0 <= i < pairs.len() && pairs[i] == (c as usize, p as usize);
            assert(pairs[i].0 == c && pairs[i].1 == p);
        } else {
            assert(is_edge(processes, rows, p, c));
            assert(pairs.contains((p as usize, c as usize)));
            let i = choose|i: int| 0 <= i < pairs.len() && pairs[i] == (p as usize, c as usize);
            assert(pairs[i].1 == c && pairs[i].0 == p);
        }
    }
    assert(delivered_to(pairs, c) =~= expected_of(rows[c]@));
}

/// A resolved topology is consistent: its child links are the same in both
/// directions, no child is linked to itself, and every child is connected.
pub proof fn lemma_resolved_consistent(
    names: Seq<&'static str>,
    edges: Seq<(&'static str, &'static str)>,
    rows: Seq<Vec<Process>>,
)
    requires
        rows.len() == names.len(),
        forall|i: int| 0 <= i < rows.len() ==> (#[trigger] rows[i])@.len() == names.len(),
        forall|i: int, j: int|
            0 <= i < rows.len() && 0 <= j < rows.len() ==> #[trigger] rows[i]@[j]
                == resolved_entry(names, edges, i, j),
    ensures
        consistent(process_list(names), rows),
{
    assert forall|a: int, b: int|
        1 <= a < rows.len() && 1 <= b < rows.len() implies #[trigger] linked(rows, a, b) == linked(
        rows,
        b,
        a,
    ) by {
        assert(rows[a]@[b] == resolved_entry(names, edges, a, b));
        assert(rows[b]@[a] == resolved_entry(names, edges, b, a));
        if declared(names, edges, a, b) {
            let k = choose|k: int|
                0 <= k < edges.len() && {
                    let e = #[trigger] edges[k];
                    (e.0@ == names[a]@ && e.1@ == names[b]@) || (e.0@ == names[b]@ && e.1@
                        == names[a]@)
                };
            assert(declared(names, edges, b, a));
        }
        if declared(names, edges, b, a) {
            let k = choose|k: int|
                0 <= k < edges.len() && {
                    let e = #[trigger] edges[k];
                    (e.0@ == names[b]@ && e.1@ == names[a]@) || (e.0@ == names[a]@ && e.1@
                        == names[b]@)
                };
            assert(declared(names, edges, a, b));
        }
    }
    assert forall|c: int| 1 <= c < rows.len() implies !(#[trigger] rows[c])@[c].connect by {
        assert(rows[c]@[c] == resolved_entry(names, edges, c, c));
    }
}

/// Which role the program takes when started as `argv0`: `Some(i)` for the
/// first child named so, `None` for the parent.
pub fn role_of(processes: &Vec<Process>, argv0: &str) -> (r: Option<usize>)
    ensures
        r is None ==> forall|j: int| 1 <= j < processes@.len() ==> (#[trigger] processes@[j]).name@ != argv0@,
        r is Some ==> {
            let i = r->Some_0 as int;
            &&& 1 <= i < processes@.len()
            &&& processes@[i].name@ == argv0@
            &&& forall|j: int| 1 <= j < i ==> (#[trigger] processes@[j]).name@ != argv0@
        },
{
    let mut i: usize = 1;
    while i < processes.len()
        invariant
            1 <= i,
            forall|j: int| 1 <= j < i && j < processes@.len() ==> (#[trigger] processes@[j]).name@ != argv0@,
        decreases processes.len() - i,
    {
        if same_name(processes[i].name, argv0) {
            return Some(i);
        }
        i += 1;
    }
    None
}

/// The index of the child `name` a child process runs as, or
/// `InvalidProcess` when the topology has no such child.
pub fn child_index(processes: &Vec<Process>, name: &str) -> (r: Result<usize, Error>)
    ensures
        r is Err ==> r == Err::<usize, Error>(Error::InvalidProcess) && forall|j: int|
            1 <= j < processes@.len() ==> (#[trigger] processes@[j]).name@ != name@,
        r is Ok ==> {
            let i = r->Ok_0 as int;
            &&& 1 <= i < processes@.len()
            &&& processes@[i].name@ == name@
            &&& forall|j: int| 1 <= j < i ==> (#[trigger] processes@[j]).name@ != name@
        },
{
    match role_of(processes, name) {
        Some(i) => Ok(i),
        None => Err(Error::InvalidProcess),
    }
}

/// Relies on `bincode::deserialize` of the unit value: it reads nothing and,
/// as trailing bytes are allowed, always succeeds.
#[verifier::external_body]
fn decode_unit(payload: &[u8]) -> (r: bool)
    ensures
        r,
{
    bincode::deserialize::<()>(payload).is_ok()
}

/// The peers a child still waits for before its application starts: the
/// connected children of its topology row.
#[derive(Debug)]
pub struct PeerWait {
    pending: Vec<bool>,
}

/// A received message is the handover of a waited-for peer channel: the
/// connect id, a descriptor, and a peer that is still waited for.
pub open spec fn is_handover(header: Message, fd: Option<i32>, waiting: Set<int>) -> bool {
    header.id == CONNECT && fd is Some && waiting.contains(header.peer_id as int)
}

impl PeerWait {
    /// The peers still waited for.
    pub closed spec fn waiting(&self) -> Set<int> {
        Set::new(|p: int| 0 <= p < self.pending@.len() && self.pending@[p])
    }

    /// Waits for every connected child of `row` but the parent.
    pub fn new(row: &Vec<Process>) -> (r: PeerWait)
        ensures
            r.waiting() == expected_of(row@),
    {
        let mut pending: Vec<bool> = Vec::new();
        let mut i: usize = 0;
        while i < row.len()
            invariant
                i <= row@.len(),
                pending@.len() == i,
                forall|p: int| 0 <= p < i ==> #[trigger] pending@[p] == (1 <= p && row@[p].connect),
            decreases row.len() - i,
        {
            pending.push(i >= 1 && row[i].connect);
            i += 1;
        }
        let r = PeerWait { pending };
        assert(r.waiting() =~= expected_of(row@));
        r
    }

    /// Whether no peer is waited for any more.
    pub fn is_done(&self) -> (r: bool)
        ensures
            r == (self.waiting() == Set::<int>::empty()),
    {
        let mut i: usize = 0;
        while i < self.pending.len()
            invariant
                i <= self.pending@.len(),
                forall|p: int| 0 <= p < i ==> !self.pending@[p],
            decreases self.pending.len() - i,
        {
            if self.pending[i] {
                assert(self.waiting().contains(i as int));
                return false;
            }
            i += 1;
        }
        assert(self.waiting() =~= Set::<int>::empty());
        true
    }

    /// Takes a message received on the parent channel while waiting. A
    /// handover of a waited-for peer returns that peer and stops the wait
    /// for it; anything else breaks the protocol and is `InvalidData`.
    pub fn accept(&mut self, header: &Message, fd: Option<i32>, payload: &[u8]) -> (r: Result<
        usize,
        Error,
    >)
        ensures
            is_handover(*header, fd, old(self).waiting()) ==> r == Ok::<usize, Error>(
                header.peer_id as usize,
            ) && final(self).waiting() == old(self).waiting().remove(header.peer_id as int),
            !is_handover(*header, fd, old(self).waiting()) ==> r == Err::<usize, Error>(
                Error::InvalidData,
            ) && final(self).waiting() == old(self).waiting(),
    {
        let p = header.peer_id as usize;
        if header.id != CONNECT || fd.is_none() || p >= self.pending.len() || !self.pending[p] {
            return Err(Error::InvalidData);
        }
        if !decode_unit(payload) {
            return Err(Error::InvalidData);
        }
        self.pending.set(p, false);
        assert(self.waiting() =~= old(self).waiting().remove(header.peer_id as int));
        Ok(p)
    }
}

} // verus!

//! The process tree shown for one CPU: which processes it holds, and how it
//! is drawn as lines of text.
use vstd::prelude::*;

use vstd::string::StringExecFns;

use crate::numeric::{decimal, decimal_int, format_i32, format_u32};
use crate::process::{distinct_pids, ProcView, ProcessInfo, ProcessTable};
use crate::text::strings_view;

verus! {

// ---------------------------------------------------------------------------
// Sorted lists of ids
// ---------------------------------------------------------------------------

pub open spec fn strictly_sorted(q: Seq<i32>) -> bool {
    forall|i: int, j: int| 0 <= i < j < q.len() ==> q[i] < q[j]
}

/// The ids of a finite set in increasing order.
pub open spec fn sorted_ids(s: Set<i32>) -> Seq<i32> {
    choose|q: Seq<i32>| strictly_sorted(q) && q.to_set() == s
}

/// Two increasing lists with the same elements are the same list.
proof fn lemma_sorted_unique(a: Seq<i32>, b: Seq<i32>)
    requires
        strictly_sorted(a),
        strictly_sorted(b),
        a.to_set() == b.to_set(),
    ensures
        a == b,
    decreases a.len(),
{
    if a.len() == 0 {
        if b.len() > 0 {
            assert(b.to_set().contains(b[0]));
        }
    } else if b.len() == 0 {
        assert(a.to_set().contains(a[0]));
    } else {
        assert(a.to_set().contains(a[0]));
        assert(b.to_set().contains(b[0]));
        let i = choose|i: int| 0 <= i < b.len() && b[i] == a[0];
        let j = choose|j: int| 0 <= j < a.len() && a[j] == b[0];
        assert(a[0] == b[0]) by {
            if i > 0 {
                assert(b[0] < b[i]);
            }
            if j > 0 {
                assert(a[0] < a[j]);
            }
        }
        let a2 = a.drop_first();
        let b2 = b.drop_first();
        assert forall|x: i32| a2.to_set().contains(x) implies b2.to_set().contains(x) by {
            let k = choose|k: int| 0 <= k < a2.len() && a2[k] == x;
            assert(a[k + 1] == x);
            assert(a.to_set().contains(x));
            let l = choose|l: int| 0 <= l < b.len() && b[l] == x;
            assert(x > a[0]);
            assert(l != 0);
            assert(b2[l - 1] == x);
        }
        assert forall|x: i32| b2.to_set().contains(x) implies a2.to_set().contains(x) by {
            let k = choose|k: int| 0 <= k < b2.len() && b2[k] == x;
            assert(b[k + 1] == x);
            assert(b.to_set().contains(x));
            let l = choose|l: int| 0 <= l < a.len() && a[l] == x;
            assert(x > b[0]);
            assert(l != 0);
            assert(a2[l - 1] == x);
        }
        assert(a2.to_set() =~= b2.to_set());
        lemma_sorted_unique(a2, b2);
        assert(a =~= seq![a[0]] + a2);
        assert(b =~= seq![b[0]] + b2);
    }
}

proof fn lemma_sorted_ids_is(q: Seq<i32>, s: Set<i32>)
    requires
        strictly_sorted(q),
        q.to_set() == s,
    ensures
        sorted_ids(s) == q,
{
    let r = sorted_ids(s);
    assert(strictly_sorted(r) && r.to_set() == s);
    lemma_sorted_unique(r, q);
}

proof fn lemma_max_exists(s: Set<i32>) -> (x: i32)
    requires
        s.finite(),
        s.len() > 0,
    ensures
        s.contains(x),
        forall|y: i32| s.contains(y) ==> y <= x,
    decreases s.len(),
{
    let a = s.choose();
    let r = s.remove(a);
    if r.len() == 0 {
        assert forall|y: i32| s.contains(y) implies y <= a by {
            if y != a {
                assert(r.contains(y));
            }
        }
        a
    } else {
        let b = lemma_max_exists(r);
        if a > b {
            a
        } else {
            b
        }
    }
}

/// Every finite set of ids has its increasing list.
pub proof fn lemma_sorted_ids(s: Set<i32>)
    requires
        s.finite(),
    ensures
        strictly_sorted(sorted_ids(s)),
        sorted_ids(s).to_set() == s,
    decreases s.len(),
{
    if s.len() == 0 {
        let q = Seq::<i32>::empty();
        assert(q.to_set() =~= s);
        lemma_sorted_ids_is(q, s);
    } else {
        let x = lemma_max_exists(s);
        let r = s.remove(x);
        lemma_sorted_ids(r);
        let p = sorted_ids(r);
        let q = p.push(x);
        assert forall|i: int, j: int| 0 <= i < j < q.len() implies q[i] < q[j] by {
            if j == q.len() - 1 {
                assert(p.to_set().contains(p[i]));
            }
        }
        assert(q.to_set() =~= s) by {
            p.lemma_push_to_set_commute(x);
        }
        lemma_sorted_ids_is(q, s);
    }
}

/// Sorts a list of distinct ids into increasing order.
fn sort_ids(v: &Vec<i32>) -> (r: Vec<i32>)
    requires
        v@.no_duplicates(),
    ensures
        strictly_sorted(r@),
        r@.to_set() == v@.to_set(),
        r@ == sorted_ids(v@.to_set()),
{
    let mut r: Vec<i32> = Vec::new();
    let mut i: usize = 0;
    while i < v.len()
        invariant
            i <= v.len(),
            v@.no_duplicates(),
            strictly_sorted(r@),
            r@.to_set() == v@.take(i as int).to_set(),
        decreases v.len() - i,
    {
        let x = v[i];
        let mut k: usize = 0;
        while k < r.len() && r[k] < x
            invariant
                k <= r.len(),
                forall|j: int| 0 <= j < k ==> r@[j] < x,
            decreases r.len() - k,
        {
            k = k + 1;
        }
        assert(!r@.to_set().contains(x)) by {
            if r@.to_set().contains(x) {
                assert(v@.take(i as int).to_set().contains(x));
                let j = choose|j: int| 0 <= j < i && v@.take(i as int)[j] == x;
                assert(v@[j] == v@[i as int]);
            }
        }
        let ghost old_r = r@;
        r.insert(k, x);
        assert(r@ == old_r.insert(k as int, x));
        assert forall|a: int, b: int| 0 <= a < b < r@.len() implies r@[a] < r@[b] by {
            if k < old_r.len() {
                assert(old_r[k as int] != x) by {
                    assert(old_r.to_set().contains(old_r[k as int]));
                }
            }
        }
        assert(v@.take(i + 1) =~= v@.take(i as int).push(x));
        assert(r@.to_set() =~= old_r.to_set().insert(x)) by {
            assert forall|y: i32| r@.to_set().contains(y) implies old_r.to_set().insert(x).contains(y) by {
                let j = choose|j: int| 0 <= j < r@.len() && r@[j] == y;
                if j < k {
                    assert(old_r[j] == y);
                } else if j > k {
                    assert(old_r[j - 1] == y);
                }
            }
            assert forall|y: i32| old_r.to_set().insert(x).contains(y) implies r@.to_set().contains(y) by {
                if y == x {
                    assert(r@[k as int] == x);
                } else {
                    let j = choose|j: int| 0 <= j < old_r.len() && old_r[j] == y;
                    if j < k {
                        assert(r@[j] == y);
                    } else {
                        assert(r@[j + 1] == y);
                    }
                }
            }
        }
        proof {
            v@.take(i as int).lemma_push_to_set_commute(x);
        }
        i = i + 1;
    }
    assert(v@.take(v.len() as int) =~= v@);
    proof {
        lemma_sorted_ids_is(r@, v@.to_set());
    }
    r
}

fn vec_contains(v: &Vec<i32>, x: i32) -> (b: bool)
    ensures
        b == v@.contains(x),
{
    let mut i: usize = 0;
    while i < v.len()
        invariant
            i <= v.len(),
            forall|j: int| 0 <= j < i ==> v@[j] != x,
        decreases v.len() - i,
    {
        if v[i] == x {
            return true;
        }
        i = i + 1;
    }
    false
}

// ---------------------------------------------------------------------------
// Which processes the tree holds
// ---------------------------------------------------------------------------

/// How many ancestors are followed up from each process on the CPU.
pub const ANCESTOR_STEPS: u32 = 129;

/// The ancestors reached by following parent ids up from `pid`, at most
/// `steps` of them: the walk stops at a process the table does not hold, at a
/// parent id that is not positive, or at a process that is its own parent.
pub open spec fn ancestors(m: Map<i32, ProcView>, pid: i32, steps: nat) -> Set<i32>
    decreases steps,
{
    if steps == 0 || !m.dom().contains(pid) {
        Set::empty()
    } else {
        let parent = m[pid].ppid;
        if parent <= 0 || parent == pid {
            Set::empty()
        } else {
            ancestors(m, parent, (steps - 1) as nat).insert(parent)
        }
    }
}

/// The processes whose last CPU is `cpu`.
pub open spec fn involved(m: Map<i32, ProcView>, cpu: u32) -> Set<i32> {
    m.dom().filter(|p: i32| m[p].last_cpu == Some(cpu))
}

/// The processes on `cpu` together with their ancestors.
pub open spec fn included(m: Map<i32, ProcView>, cpu: u32) -> Set<i32> {
    Set::new(
        |q: i32|
            involved(m, cpu).contains(q) || exists|p: i32|
                involved(m, cpu).contains(p) && #[trigger] ancestors(m, p, ANCESTOR_STEPS as nat).contains(q),
    )
}

/// A process hangs below its parent when the parent is in the tree and is not
/// the process itself.
pub open spec fn is_child(m: Map<i32, ProcView>, inc: Set<i32>, p: i32) -> bool {
    inc.contains(m[p].ppid) && m[p].ppid != p
}

/// Whether `p` is in the tree and hangs below `parent` (below nothing for `None`).
pub open spec fn picks(m: Map<i32, ProcView>, inc: Set<i32>, parent: Option<i32>, p: i32) -> bool {
    inc.contains(p) && match parent {
        None => !is_child(m, inc, p),
        Some(q) => is_child(m, inc, p) && m[p].ppid == q,
    }
}

/// The processes of the table that `picks` chooses, in increasing order.
pub open spec fn picked_ids(m: Map<i32, ProcView>, inc: Set<i32>, parent: Option<i32>) -> Seq<i32> {
    sorted_ids(m.dom().filter(|p: i32| picks(m, inc, parent, p)))
}

/// The processes of the tree that hang below no other one, in increasing order.
pub open spec fn root_ids(m: Map<i32, ProcView>, inc: Set<i32>) -> Seq<i32> {
    picked_ids(m, inc, None)
}

/// The processes of the tree that hang below `q`, in increasing order.
pub open spec fn child_ids(m: Map<i32, ProcView>, inc: Set<i32>, q: i32) -> Seq<i32> {
    picked_ids(m, inc, Some(q))
}

// ---------------------------------------------------------------------------
// How the tree is drawn
// ---------------------------------------------------------------------------

pub open spec fn marker(v: ProcView, cpu: u32) -> Seq<char> {
    if v.last_cpu == Some(cpu) {
        " *"@
    } else {
        Seq::empty()
    }
}

/// `<pid> <name>`, with ` *` after it for a process on the CPU.
pub open spec fn node_text(v: ProcView, cpu: u32) -> Seq<char> {
    decimal_int(v.pid as int) + " "@ + v.name + marker(v, cpu)
}

pub open spec fn branch(is_last: bool) -> Seq<char> {
    if is_last {
        "`-- "@
    } else {
        "|-- "@
    }
}

/// The line of one process: a root's text alone, another's after the prefix
/// and a branch.
pub open spec fn node_line(v: ProcView, prefix: Seq<char>, is_last: bool, is_root: bool, cpu: u32) -> Seq<char> {
    if is_root {
        node_text(v, cpu)
    } else {
        prefix + branch(is_last) + node_text(v, cpu)
    }
}

/// The prefix that the children of a process are drawn after.
pub open spec fn next_prefix(prefix: Seq<char>, is_last: bool, is_root: bool) -> Seq<char> {
    if is_root {
        Seq::empty()
    } else if is_last {
        prefix + "    "@
    } else {
        prefix + "|   "@
    }
}

/// A root hands its children no prefix; any other process hands them its
/// own prefix followed by exactly one segment of four characters: four spaces
/// when it is the last child, a bar and three spaces otherwise. Its own line
/// is its prefix, a four-character branch, then its text.
pub proof fn lemma_child_prefix(prefix: Seq<char>, is_last: bool, v: ProcView, cpu: u32)
    ensures
        next_prefix(prefix, is_last, true).len() == 0,
        next_prefix(prefix, is_last, false).len() == prefix.len() + 4,
        next_prefix(prefix, is_last, false).subrange(0, prefix.len() as int) == prefix,
        next_prefix(prefix, is_last, false).subrange(prefix.len() as int, prefix.len() + 4int) == (if is_last {
            seq![' ', ' ', ' ', ' ']
        } else {
            seq!['|', ' ', ' ', ' ']
        }),
        node_line(v, prefix, is_last, false, cpu) == prefix + (if is_last {
            seq!['`', '-', '-', ' ']
        } else {
            seq!['|', '-', '-', ' ']
        }) + node_text(v, cpu),
        node_line(v, prefix, is_last, true, cpu) == node_text(v, cpu),
{
    reveal_strlit("    ");
    reveal_strlit("|   ");
    reveal_strlit("`-- ");
    reveal_strlit("|-- ");
    let q = next_prefix(prefix, is_last, false);
    assert(q.subrange(0, prefix.len() as int) =~= prefix);
    if is_last {
        assert(q.subrange(prefix.len() as int, prefix.len() + 4int) =~= seq![' ', ' ', ' ', ' ']);
        assert("`-- "@ =~= seq!['`', '-', '-', ' ']);
    } else {
        assert(q.subrange(prefix.len() as int, prefix.len() + 4int) =~= seq!['|', ' ', ' ', ' ']);
        assert("|-- "@ =~= seq!['|', '-', '-', ' ']);
    }
}

/// The prefix after going down through non-root processes, `lasts[i]`
/// telling whether the `i`-th of them was a last child.
pub open spec fn descend(prefix: Seq<char>, lasts: Seq<bool>) -> Seq<char>
    decreases lasts.len(),
{
    if lasts.len() == 0 {
        prefix
    } else {
        next_prefix(descend(prefix, lasts.drop_last()), lasts.last(), false)
    }
}

/// Each level down the tree indents by four more columns, whatever the
/// depth: a process `d` levels below its root (which hands the empty prefix)
/// is drawn after a prefix of exactly `4 * (d - 1)` characters.
pub proof fn lemma_prefix_depth(prefix: Seq<char>, lasts: Seq<bool>, root_is_last: bool)
    ensures
        descend(prefix, lasts).len() == prefix.len() + 4 * lasts.len(),
        descend(next_prefix(prefix, root_is_last, true), lasts).len() == 4 * lasts.len(),
    decreases lasts.len(),
{
    lemma_child_prefix(prefix, root_is_last, ProcView { pid: 0, ppid: 0, name: Seq::empty(), last_cpu: None }, 0);
    if lasts.len() > 0 {
        lemma_prefix_depth(prefix, lasts.drop_last(), root_is_last);
        lemma_child_prefix(descend(prefix, lasts.drop_last()), lasts.last(), ProcView { pid: 0, ppid: 0, name: Seq::empty(), last_cpu: None }, 0);
        lemma_child_prefix(descend(next_prefix(prefix, root_is_last, true), lasts.drop_last()), lasts.last(), ProcView { pid: 0, ppid: 0, name: Seq::empty(), last_cpu: None }, 0);
    }
}

/// The lines of `pid` and, below it, of its children, at most `depth` levels deep.
pub open spec fn render_node(
    m: Map<i32, ProcView>,
    inc: Set<i32>,
    cpu: u32,
    pid: i32,
    prefix: Seq<char>,
    is_last: bool,
    is_root: bool,
    depth: nat,
) -> Seq<Seq<char>>
    decreases depth, 0int, 0int,
{
    if depth == 0 || !m.dom().contains(pid) {
        Seq::empty()
    } else {
        seq![node_line(m[pid], prefix, is_last, is_root, cpu)] + render_list(
            m,
            inc,
            cpu,
            child_ids(m, inc, pid),
            0,
            next_prefix(prefix, is_last, is_root),
            false,
            (depth - 1) as nat,
        )
    }
}

/// The lines of `kids[i..]` one after the other, the last of them marked as last.
pub open spec fn render_list(
    m: Map<i32, ProcView>,
    inc: Set<i32>,
    cpu: u32,
    kids: Seq<i32>,
    i: int,
    prefix: Seq<char>,
    is_root: bool,
    depth: nat,
) -> Seq<Seq<char>>
    decreases depth, 1int, kids.len() - i,
{
    if i < 0 || i >= kids.len() {
        Seq::empty()
    } else {
        render_node(m, inc, cpu, kids[i], prefix, i + 1 == kids.len(), is_root, depth) + render_list(
            m,
            inc,
            cpu,
            kids,
            i + 1,
            prefix,
            is_root,
            depth,
        )
    }
}

pub open spec fn tree_header(cpu: u32) -> Seq<char> {
    "process tree cpu "@ + decimal(cpu as nat)
}

/// The lines of the process tree for `cpu`: a header, then either a note that
/// there is nothing to show, or a legend and the trees of the root processes.
pub open spec fn tree_lines(m: Map<i32, ProcView>, cpu: u32) -> Seq<Seq<char>> {
    if m.dom().len() == 0 {
        seq![tree_header(cpu), "no process data from /proc"@]
    } else if involved(m, cpu).len() == 0 {
        seq![tree_header(cpu), "no process currently scheduled on this cpu"@]
    } else {
        let inc = included(m, cpu);
        seq![tree_header(cpu), "* marker = currently on selected cpu"@] + render_list(
            m,
            inc,
            cpu,
            root_ids(m, inc),
            0,
            Seq::empty(),
            true,
            m.dom().len(),
        )
    }
}



spec fn walk_union(m: Map<i32, ProcView>, ps: Seq<i32>, k: int) -> Set<i32>
    decreases k,
{
    if k <= 0 {
        Set::empty()
    } else {
        walk_union(m, ps, k - 1).union(ancestors(m, ps[k - 1], ANCESTOR_STEPS as nat))
    }
}

proof fn lemma_walk_union(m: Map<i32, ProcView>, ps: Seq<i32>, k: int, q: i32)
    requires
        0 <= k <= ps.len(),
    ensures
        walk_union(m, ps, k).contains(q) <==> exists|j: int| 0 <= j < k && ancestors(m, ps[j], ANCESTOR_STEPS as nat).contains(q),
    decreases k,
{
    if k > 0 {
        lemma_walk_union(m, ps, k - 1, q);
        if ancestors(m, ps[k - 1], ANCESTOR_STEPS as nat).contains(q) {
            assert(exists|j: int| 0 <= j < k && ancestors(m, ps[j], ANCESTOR_STEPS as nat).contains(q));
        }
        if exists|j: int| 0 <= j < k && ancestors(m, ps[j], ANCESTOR_STEPS as nat).contains(q) {
            let j = choose|j: int| 0 <= j < k && ancestors(m, ps[j], ANCESTOR_STEPS as nat).contains(q);
            if j < k - 1 {
                assert(exists|j: int| 0 <= j < k - 1 && ancestors(m, ps[j], ANCESTOR_STEPS as nat).contains(q));
            }
        }
    }
}

/// The ids of the processes whose last CPU is `cpu`.
fn involved_ids(table: &ProcessTable, cpu: u32) -> (r: Vec<i32>)
    ensures
        r@.no_duplicates(),
        r@.to_set() == involved(table.view_map(), cpu),
{
    proof {
        use_type_invariant(table);
        table.lemma_view();
    }
    let ghost ev = table.entries_view();
    let ghost m = table.view_map();
    let n = table.len();
    let mut r: Vec<i32> = Vec::new();
    let mut i: usize = 0;
    while i < n
        invariant
            i <= n == ev.len(),
            ev == table.entries_view(),
            distinct_pids(ev),
            r@.no_duplicates(),
            forall|x: i32| r@.contains(x) <==> exists|j: int| 0 <= j < i && #[trigger] ev[j].pid == x && ev[j].last_cpu == Some(cpu),
        decreases n - i,
    {
        let e = table.entry(i);
        let on_cpu = match e.last_cpu {
            Some(c) => c == cpu,
            None => false,
        };
        if on_cpu {
            assert(!r@.contains(e.pid)) by {
                if r@.contains(e.pid) {
                    let j = choose|j: int| 0 <= j < i && #[trigger] ev[j].pid == e.pid && ev[j].last_cpu == Some(cpu);
                    assert(ev[j].pid == ev[i as int].pid);
                }
            }
            let ghost old_r = r@;
            r.push(e.pid);
            assert forall|x: i32| r@.contains(x) <==> exists|j: int| 0 <= j < i + 1 && #[trigger] ev[j].pid == x && ev[j].last_cpu == Some(cpu) by {
                if x == e.pid {
                    assert(r@[r@.len() - 1] == x);
                    assert(ev[i as int].pid == x);
                } else {
                    if r@.contains(x) {
                        let k = choose|k: int| 0 <= k < r@.len() && r@[k] == x;
                        assert(k < old_r.len());
                        assert(old_r[k] == x);
                        assert(old_r.contains(x));
                    }
                    if exists|j: int| 0 <= j < i + 1 && #[trigger] ev[j].pid == x && ev[j].last_cpu == Some(cpu) {
                        let j = choose|j: int| 0 <= j < i + 1 && #[trigger] ev[j].pid == x && ev[j].last_cpu == Some(cpu);
                        assert(j != i);
                        assert(old_r.contains(x));
                        let k = choose|k: int| 0 <= k < old_r.len() && old_r[k] == x;
                        assert(r@[k] == x);
                    }
                }
            }
        } else {
            assert forall|x: i32| r@.contains(x) <==> exists|j: int| 0 <= j < i + 1 && #[trigger] ev[j].pid == x && ev[j].last_cpu == Some(cpu) by {
                if exists|j: int| 0 <= j < i + 1 && #[trigger] ev[j].pid == x && ev[j].last_cpu == Some(cpu) {
                    let j = choose|j: int| 0 <= j < i + 1 && #[trigger] ev[j].pid == x && ev[j].last_cpu == Some(cpu);
                    assert(j != i);
                }
            }
        }
        i = i + 1;
    }
    assert(r@.to_set() =~= involved(m, cpu)) by {
        assert forall|x: i32| r@.to_set().contains(x) implies involved(m, cpu).contains(x) by {
            assert(r@.contains(x));
            let j = choose|j: int| 0 <= j < n && #[trigger] ev[j].pid == x && ev[j].last_cpu == Some(cpu);
            assert(m[ev[j].pid] == ev[j]);
        }
        assert forall|x: i32| involved(m, cpu).contains(x) implies r@.to_set().contains(x) by {
            let j = choose|j: int| 0 <= j < ev.len() && #[trigger] ev[j].pid == x;
            assert(m[ev[j].pid] == ev[j]);
        }
    }
    r
}

/// The ids of the processes on the CPU and of their ancestors.
fn included_ids(table: &ProcessTable, cpu: u32, on_cpu: &Vec<i32>) -> (r: Vec<i32>)
    requires
        on_cpu@.no_duplicates(),
        on_cpu@.to_set() == involved(table.view_map(), cpu),
    ensures
        r@.no_duplicates(),
        r@.to_set() == included(table.view_map(), cpu),
{
    let ghost m = table.view_map();
    let ghost ps = on_cpu@;
    let mut inc: Vec<i32> = Vec::new();
    let mut k: usize = 0;
    while k < on_cpu.len()
        invariant
            k <= on_cpu.len(),
            ps == on_cpu@,
            ps.no_duplicates(),
            inc@.no_duplicates(),
            inc@ == ps.take(k as int),
        decreases on_cpu.len() - k,
    {
        inc.push(on_cpu[k]);
        k = k + 1;
        assert(inc@ =~= ps.take(k as int));
    }
    assert(ps.take(k as int) =~= ps);
    let mut k: usize = 0;
    while k < on_cpu.len()
        invariant
            k <= on_cpu.len(),
            ps == on_cpu@,
            m == table.view_map(),
            inc@.no_duplicates(),
            inc@.to_set() == ps.to_set().union(walk_union(m, ps, k as int)),
        decreases on_cpu.len() - k,
    {
        let p = on_cpu[k];
        let ghost base = inc@.to_set();
        let mut current = p;
        let mut steps: u32 = ANCESTOR_STEPS;
        loop
            invariant_except_break
                m == table.view_map(),
                inc@.no_duplicates(),
                1 <= steps <= ANCESTOR_STEPS,
                base.subset_of(inc@.to_set()),
                inc@.to_set().subset_of(base.union(ancestors(m, p, ANCESTOR_STEPS as nat))),
                inc@.to_set().union(ancestors(m, current, steps as nat)) == base.union(ancestors(m, p, ANCESTOR_STEPS as nat)),
            ensures
                inc@.no_duplicates(),
                inc@.to_set() == base.union(ancestors(m, p, ANCESTOR_STEPS as nat)),
            decreases steps,
        {
            match table.get(current) {
                None => {
                    assert(ancestors(m, current, steps as nat) =~= Set::empty());
                    assert(inc@.to_set() =~= base.union(ancestors(m, p, ANCESTOR_STEPS as nat)));
                    break;
                },
                Some(info) => {
                    let parent = info.ppid;
                    if parent <= 0 || parent == current {
                        assert(ancestors(m, current, steps as nat) =~= Set::empty());
                        assert(inc@.to_set() =~= base.union(ancestors(m, p, ANCESTOR_STEPS as nat)));
                        break;
                    }
                    let ghost old_inc = inc@;
                    assert(ancestors(m, current, steps as nat) == ancestors(m, parent, (steps - 1) as nat).insert(parent));
                    if !vec_contains(&inc, parent) {
                        inc.push(parent);
                        proof {
                            old_inc.lemma_push_to_set_commute(parent);
                        }
                    }
                    assert(inc@.to_set() =~= old_inc.to_set().insert(parent));
                    current = parent;
                    steps = steps - 1;
                    if steps == 0 {
                        assert(ancestors(m, current, 0) =~= Set::empty());
                        assert(inc@.to_set() =~= base.union(ancestors(m, p, ANCESTOR_STEPS as nat)));
                        break;
                    }
                    assert(inc@.to_set().union(ancestors(m, current, steps as nat)) =~= base.union(ancestors(m, p, ANCESTOR_STEPS as nat)));
                },
            }
        }
        k = k + 1;
        assert(inc@.to_set() =~= ps.to_set().union(walk_union(m, ps, k as int)));
    }
    assert(inc@.to_set() =~= included(m, cpu)) by {
        assert forall|q: i32| inc@.to_set().contains(q) <==> included(m, cpu).contains(q) by {
            lemma_walk_union(m, ps, ps.len() as int, q);
            if exists|p: i32| involved(m, cpu).contains(p) && #[trigger] ancestors(m, p, ANCESTOR_STEPS as nat).contains(q) {
                let p = choose|p: i32| involved(m, cpu).contains(p) && #[trigger] ancestors(m, p, ANCESTOR_STEPS as nat).contains(q);
                assert(ps.to_set().contains(p));
                let j = choose|j: int| 0 <= j < ps.len() && ps[j] == p;
                assert(ancestors(m, ps[j], ANCESTOR_STEPS as nat).contains(q));
            }
            if walk_union(m, ps, ps.len() as int).contains(q) {
                let j = choose|j: int| 0 <= j < ps.len() && ancestors(m, ps[j], ANCESTOR_STEPS as nat).contains(q);
                assert(ps.to_set().contains(ps[j]));
            }
        }
    }
    inc
}

// ---------------------------------------------------------------------------
// The depth bound is never reached
// ---------------------------------------------------------------------------

/// A path down the tree: it starts at a process that hangs below no other,
/// and each next process hangs below the one before it.
pub open spec fn tree_path(m: Map<i32, ProcView>, inc: Set<i32>, path: Seq<i32>) -> bool {
    &&& path.len() >= 1
    &&& path.no_duplicates()
    &&& forall|i: int| 0 <= i < path.len() ==> m.dom().contains(#[trigger] path[i])
    &&& !is_child(m, inc, path[0])
    &&& forall|i: int| 1 <= i < path.len() ==> is_child(m, inc, #[trigger] path[i]) && m[path[i]].ppid == path[i - 1]
}

proof fn lemma_path_len(m: Map<i32, ProcView>, inc: Set<i32>, path: Seq<i32>)
    requires
        m.dom().finite(),
        tree_path(m, inc, path),
    ensures
        path.len() <= m.dom().len(),
{
    path.unique_seq_to_set();
    assert(path.to_set().subset_of(m.dom()));
    vstd::set_lib::lemma_len_subset(path.to_set(), m.dom());
}

/// A child of the last process of a path extends the path: it cannot already
/// be on it.
proof fn lemma_path_extend(m: Map<i32, ProcView>, inc: Set<i32>, path: Seq<i32>, c: i32)
    requires
        tree_path(m, inc, path),
        m.dom().contains(c),
        is_child(m, inc, c),
        m[c].ppid == path.last(),
    ensures
        tree_path(m, inc, path.push(c)),
{
    let q = path.push(c);
    assert(!path.contains(c)) by {
        if path.contains(c) {
            let i = choose|i: int| 0 <= i < path.len() && path[i] == c;
            if i == 0 {
                assert(!is_child(m, inc, path[0]));
            } else {
                assert(m[path[i]].ppid == path[i - 1]);
                assert(path[i - 1] == path[path.len() - 1]);
            }
        }
    }
    assert forall|i: int, j: int| 0 <= i < q.len() && 0 <= j < q.len() && i != j implies q[i] != q[j] by {
        if i < path.len() && j < path.len() {
            assert(q[i] == path[i] && q[j] == path[j]);
        } else if i < path.len() {
            assert(path.contains(q[i]));
        } else {
            assert(path.contains(q[j]));
        }
    }
    assert forall|i: int| 0 <= i < q.len() implies m.dom().contains(#[trigger] q[i]) by {
        if i < path.len() {
            assert(q[i] == path[i]);
        }
    }
    assert forall|i: int| 1 <= i < q.len() implies is_child(m, inc, #[trigger] q[i]) && m[q[i]].ppid == q[i - 1] by {
        if i < path.len() {
            assert(q[i] == path[i] && q[i - 1] == path[i - 1]);
        }
    }
}

proof fn lemma_node_depth_stable(
    m: Map<i32, ProcView>,
    inc: Set<i32>,
    cpu: u32,
    path: Seq<i32>,
    prefix: Seq<char>,
    is_last: bool,
    is_root: bool,
    depth: nat,
)
    requires
        m.dom().finite(),
        tree_path(m, inc, path),
        depth + path.len() >= m.dom().len() + 1,
    ensures
        render_node(m, inc, cpu, path.last(), prefix, is_last, is_root, depth) == render_node(
            m,
            inc,
            cpu,
            path.last(),
            prefix,
            is_last,
            is_root,
            depth + 1,
        ),
    decreases depth, 0int, 0int,
{
    lemma_path_len(m, inc, path);
    let v = path.last();
    let kids = child_ids(m, inc, v);
    let picked = m.dom().filter(|p: i32| picks(m, inc, Some(v), p));
    lemma_sorted_ids(picked);
    assert forall|j: int| 0 <= j < kids.len() implies tree_path(m, inc, #[trigger] path.push(kids[j])) by {
        assert(kids.to_set().contains(kids[j]));
        lemma_path_extend(m, inc, path, kids[j]);
    }
    lemma_list_depth_stable(m, inc, cpu, path, kids, 0, next_prefix(prefix, is_last, is_root), false, (depth - 1) as nat);
}

proof fn lemma_list_depth_stable(
    m: Map<i32, ProcView>,
    inc: Set<i32>,
    cpu: u32,
    base: Seq<i32>,
    kids: Seq<i32>,
    i: int,
    prefix: Seq<char>,
    is_root: bool,
    depth: nat,
)
    requires
        m.dom().finite(),
        forall|j: int| 0 <= j < kids.len() ==> tree_path(m, inc, #[trigger] base.push(kids[j])),
        depth + base.len() >= m.dom().len(),
        0 <= i <= kids.len(),
    ensures
        render_list(m, inc, cpu, kids, i, prefix, is_root, depth) == render_list(
            m,
            inc,
            cpu,
            kids,
            i,
            prefix,
            is_root,
            depth + 1,
        ),
    decreases depth, 1int, kids.len() - i,
{
    if i < kids.len() {
        let q = base.push(kids[i]);
        assert(tree_path(m, inc, q));
        assert(q.last() == kids[i]);
        lemma_node_depth_stable(m, inc, cpu, q, prefix, i + 1 == kids.len(), is_root, depth);
        lemma_list_depth_stable(m, inc, cpu, base, kids, i + 1, prefix, is_root, depth);
    }
}

/// The tree is drawn down to a depth of as many levels as there are
/// processes, and that bound is never reached: drawing with any deeper bound
/// gives the same lines. (Below its roots the tree has no cycle, so no path
/// down it repeats a process.)
pub proof fn lemma_tree_depth_bound_unreached(m: Map<i32, ProcView>, cpu: u32, extra: nat)
    requires
        m.dom().finite(),
    ensures
        render_list(m, included(m, cpu), cpu, root_ids(m, included(m, cpu)), 0, Seq::empty(), true, m.dom().len())
            == render_list(
            m,
            included(m, cpu),
            cpu,
            root_ids(m, included(m, cpu)),
            0,
            Seq::empty(),
            true,
            m.dom().len() + extra,
        ),
    decreases extra,
{
    if extra > 0 {
        lemma_tree_depth_bound_unreached(m, cpu, (extra - 1) as nat);
        let inc = included(m, cpu);
        let roots = root_ids(m, inc);
        let picked = m.dom().filter(|p: i32| picks(m, inc, None, p));
        lemma_sorted_ids(picked);
        let base = Seq::<i32>::empty();
        assert forall|j: int| 0 <= j < roots.len() implies tree_path(m, inc, #[trigger] base.push(roots[j])) by {
            assert(roots.to_set().contains(roots[j]));
            let q = base.push(roots[j]);
            assert(q =~= seq![roots[j]]);
        }
        lemma_list_depth_stable(m, inc, cpu, base, roots, 0, Seq::empty(), true, (m.dom().len() + extra - 1) as nat);
    }
}

/// The ids of the processes that `picks` chooses, in increasing order.
fn pick_ids(table: &ProcessTable, inc: &Vec<i32>, parent: Option<i32>) -> (r: Vec<i32>)
    ensures
        r@ == picked_ids(table.view_map(), inc@.to_set(), parent),
{
    proof {
        use_type_invariant(table);
        table.lemma_view();
    }
    let ghost ev = table.entries_view();
    let ghost m = table.view_map();
    let ghost incs = inc@.to_set();
    let n = table.len();
    let mut r: Vec<i32> = Vec::new();
    let mut i: usize = 0;
    while i < n
        invariant
            i <= n == ev.len(),
            ev == table.entries_view(),
            m == table.view_map(),
            incs == inc@.to_set(),
            distinct_pids(ev),
            forall|j: int| 0 <= j < ev.len() ==> m[#[trigger] ev[j].pid] == ev[j],
            forall|j: int| 0 <= j < ev.len() ==> m.dom().contains(#[trigger] ev[j].pid),
            r@.no_duplicates(),
            forall|x: i32| r@.contains(x) <==> exists|j: int| 0 <= j < i && #[trigger] ev[j].pid == x && picks(m, incs, parent, x),
        decreases n - i,
    {
        let e = table.entry(i);
        let in_tree = vec_contains(inc, e.pid);
        let below = vec_contains(inc, e.ppid) && e.ppid != e.pid;
        let chosen = in_tree && match parent {
            None => !below,
            Some(q) => below && e.ppid == q,
        };
        assert(m[ev[i as int].pid] == ev[i as int]);
        assert(chosen == picks(m, incs, parent, e.pid));
        if chosen {
            assert(!r@.contains(e.pid)) by {
                if r@.contains(e.pid) {
                    let j = choose|j: int| 0 <= j < i && #[trigger] ev[j].pid == e.pid && picks(m, incs, parent, e.pid);
                    assert(ev[j].pid == ev[i as int].pid);
                }
            }
            let ghost old_r = r@;
            r.push(e.pid);
            assert forall|x: i32| r@.contains(x) <==> exists|j: int| 0 <= j < i + 1 && #[trigger] ev[j].pid == x && picks(m, incs, parent, x) by {
                if x == e.pid {
                    assert(r@[r@.len() - 1] == x);
                    assert(ev[i as int].pid == x);
                } else {
                    if r@.contains(x) {
                        let k = choose|k: int| 0 <= k < r@.len() && r@[k] == x;
                        assert(old_r[k] == x);
                        assert(old_r.contains(x));
                    }
                    if exists|j: int| 0 <= j < i + 1 && #[trigger] ev[j].pid == x && picks(m, incs, parent, x) {
                        let j = choose|j: int| 0 <= j < i + 1 && #[trigger] ev[j].pid == x && picks(m, incs, parent, x);
                        assert(j != i);
                        assert(old_r.contains(x));
                        let k = choose|k: int| 0 <= k < old_r.len() && old_r[k] == x;
                        assert(r@[k] == x);
                    }
                }
            }
        } else {
            assert forall|x: i32| r@.contains(x) <==> exists|j: int| 0 <= j < i + 1 && #[trigger] ev[j].pid == x && picks(m, incs, parent, x) by {
                if exists|j: int| 0 <= j < i + 1 && #[trigger] ev[j].pid == x && picks(m, incs, parent, x) {
                    let j = choose|j: int| 0 <= j < i + 1 && #[trigger] ev[j].pid == x && picks(m, incs, parent, x);
                    assert(j != i);
                }
            }
        }
        i = i + 1;
    }
    assert(r@.to_set() =~= m.dom().filter(|p: i32| picks(m, incs, parent, p))) by {
        assert forall|x: i32| r@.to_set().contains(x) implies m.dom().filter(|p: i32| picks(m, incs, parent, p)).contains(x) by {
            assert(r@.contains(x));
            let j = choose|j: int| 0 <= j < n && #[trigger] ev[j].pid == x && picks(m, incs, parent, x);
        }
        assert forall|x: i32| m.dom().filter(|p: i32| picks(m, incs, parent, p)).contains(x) implies r@.to_set().contains(x) by {
            let j = choose|j: int| 0 <= j < ev.len() && #[trigger] ev[j].pid == x;
        }
    }
    sort_ids(&r)
}

/// The line of one process.
fn node_line_string(info: &ProcessInfo, prefix: &String, is_last: bool, is_root: bool, cpu: u32) -> (s: String)
    ensures
        s@ == node_line(info@, prefix@, is_last, is_root, cpu),
{
    let mut s = String::new();
    if !is_root {
        s.append(prefix.as_str());
        if is_last {
            s.append("`-- ");
        } else {
            s.append("|-- ");
        }
    }
    let id = format_i32(info.pid);
    s.append(id.as_str());
    s.append(" ");
    s.append(info.name.as_str());
    let marked = match info.last_cpu {
        Some(c) => c == cpu,
        None => false,
    };
    if marked {
        s.append(" *");
    }
    assert(s@ =~= node_line(info@, prefix@, is_last, is_root, cpu));
    s
}

fn next_prefix_string(prefix: &String, is_last: bool, is_root: bool) -> (s: String)
    ensures
        s@ == next_prefix(prefix@, is_last, is_root),
{
    let mut s = String::new();
    if !is_root {
        s.append(prefix.as_str());
        if is_last {
            s.append("    ");
        } else {
            s.append("|   ");
        }
    }
    assert(s@ =~= next_prefix(prefix@, is_last, is_root));
    s
}

/// Appends the lines of `pid` and of the processes below it.
pub fn append_tree_lines(
    table: &ProcessTable,
    inc: &Vec<i32>,
    cpu: u32,
    pid: i32,
    prefix: &String,
    is_last: bool,
    is_root: bool,
    lines: &mut Vec<String>,
    depth: usize,
)
    ensures
        strings_view(final(lines)@) == strings_view(old(lines)@) + render_node(
            table.view_map(),
            inc@.to_set(),
            cpu,
            pid,
            prefix@,
            is_last,
            is_root,
            depth as nat,
        ),
    decreases depth, 0int,
{
    if depth == 0 {
        assert(strings_view(lines@) =~= strings_view(lines@) + Seq::<Seq<char>>::empty());
        return;
    }
    let info = match table.get(pid) {
        Some(info) => info,
        None => {
            assert(strings_view(lines@) =~= strings_view(lines@) + Seq::<Seq<char>>::empty());
            return;
        },
    };
    let ghost before = strings_view(lines@);
    let line = node_line_string(info, prefix, is_last, is_root, cpu);
    lines.push(line);
    assert(strings_view(lines@) =~= before.push(line@));
    let kids = pick_ids(table, inc, Some(pid));
    let next = next_prefix_string(prefix, is_last, is_root);
    append_list(table, inc, cpu, &kids, &next, false, lines, depth - 1);
    assert(strings_view(lines@) =~= before + render_node(
        table.view_map(),
        inc@.to_set(),
        cpu,
        pid,
        prefix@,
        is_last,
        is_root,
        depth as nat,
    ));
}

/// Appends the lines of each of `kids` in turn.
pub fn append_list(
    table: &ProcessTable,
    inc: &Vec<i32>,
    cpu: u32,
    kids: &Vec<i32>,
    prefix: &String,
    is_root: bool,
    lines: &mut Vec<String>,
    depth: usize,
)
    ensures
        strings_view(final(lines)@) == strings_view(old(lines)@) + render_list(
            table.view_map(),
            inc@.to_set(),
            cpu,
            kids@,
            0,
            prefix@,
            is_root,
            depth as nat,
        ),
    decreases depth, 1int,
{
    let ghost m = table.view_map();
    let ghost incs = inc@.to_set();
    let ghost base = strings_view(lines@);
    let mut idx: usize = 0;
    while idx < kids.len()
        invariant
            idx <= kids.len(),
            m == table.view_map(),
            incs == inc@.to_set(),
            strings_view(lines@) + render_list(m, incs, cpu, kids@, idx as int, prefix@, is_root, depth as nat)
                == base + render_list(m, incs, cpu, kids@, 0, prefix@, is_root, depth as nat),
        decreases kids.len() - idx,
    {
        let ghost here = strings_view(lines@);
        let last = idx + 1 == kids.len();
        append_tree_lines(table, inc, cpu, kids[idx], prefix, last, is_root, lines, depth);
        idx = idx + 1;
        assert(strings_view(lines@) + render_list(m, incs, cpu, kids@, idx as int, prefix@, is_root, depth as nat)
            =~= here + render_list(m, incs, cpu, kids@, (idx - 1) as int, prefix@, is_root, depth as nat));
    }
    assert(strings_view(lines@) =~= strings_view(lines@) + render_list(m, incs, cpu, kids@, idx as int, prefix@, is_root, depth as nat));
}

/// The lines of the process tree of the processes on CPU `cpu_id`.
pub fn build_process_tree_lines(cpu_id: u32, table: &ProcessTable) -> (lines: Vec<String>)
    ensures
        strings_view(lines@) == tree_lines(table.view_map(), cpu_id),
{
    let number = format_u32(cpu_id);
    let header = String::from_str("process tree cpu ").concat(number.as_str());
    if table.is_empty() {
        let lines = vec![header, String::from_str("no process data from /proc")];
        assert(strings_view(lines@) =~= tree_lines(table.view_map(), cpu_id));
        return lines;
    }
    let on_cpu = involved_ids(table, cpu_id);
    proof {
        on_cpu@.unique_seq_to_set();
    }
    if on_cpu.len() == 0 {
        let lines = vec![header, String::from_str("no process currently scheduled on this cpu")];
        assert(strings_view(lines@) =~= tree_lines(table.view_map(), cpu_id));
        return lines;
    }
    let inc = included_ids(table, cpu_id, &on_cpu);
    let roots = pick_ids(table, &inc, None);
    let mut lines = vec![header, String::from_str("* marker = currently on selected cpu")];
    let empty = String::new();
    append_list(table, &inc, cpu_id, &roots, &empty, true, &mut lines, table.len());
    assert(strings_view(lines@) =~= tree_lines(table.view_map(), cpu_id));
    lines
}

} // verus!

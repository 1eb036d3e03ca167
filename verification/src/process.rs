//! What the process monitor knows of a running process, the table of all of
//! them, and the reading of a `/proc/<pid>/stat` line.
use vstd::prelude::*;

use crate::numeric::{
    decimal_int, lemma_i32_round_trip, parse_i32_range, parse_u32_range, spec_parse_i32, spec_parse_u32,
};
use crate::text::{
    chars_of, lemma_piece_len_bound, lemma_piece_len_is, piece_len, string_between, word_bounds, words,
};

verus! {

/// One process: its id, its parent's id, its command name and the CPU it last ran on.
pub struct ProcessInfo {
    pub pid: i32,
    pub ppid: i32,
    pub name: String,
    pub last_cpu: Option<u32>,
}

/// The mathematical value of a `ProcessInfo`.
pub ghost struct ProcView {
    pub pid: i32,
    pub ppid: i32,
    pub name: Seq<char>,
    pub last_cpu: Option<u32>,
}

impl View for ProcessInfo {
    type V = ProcView;

    open spec fn view(&self) -> ProcView {
        ProcView { pid: self.pid, ppid: self.ppid, name: self.name@, last_cpu: self.last_cpu }
    }
}

/// The processes, keyed by their id.
pub struct ProcessTable {
    entries: Vec<ProcessInfo>,
}

/// The map that a list of processes makes when they are inserted in turn,
/// a later one replacing an earlier one with the same id.
pub open spec fn entries_map(s: Seq<ProcView>) -> Map<i32, ProcView>
    decreases s.len(),
{
    if s.len() == 0 {
        Map::empty()
    } else {
        entries_map(s.drop_last()).insert(s.last().pid, s.last())
    }
}

pub open spec fn distinct_pids(s: Seq<ProcView>) -> bool {
    forall|i: int, j: int| 0 <= i < s.len() && 0 <= j < s.len() && i != j ==> s[i].pid != s[j].pid
}

proof fn lemma_entries_map(s: Seq<ProcView>)
    requires
        distinct_pids(s),
    ensures
        entries_map(s).dom().finite(),
        entries_map(s).dom().len() == s.len(),
        forall|k: i32| entries_map(s).dom().contains(k) <==> exists|i: int| 0 <= i < s.len() && #[trigger] s[i].pid == k,
        forall|i: int| 0 <= i < s.len() ==> entries_map(s)[#[trigger] s[i].pid] == s[i],
    decreases s.len(),
{
    if s.len() > 0 {
        let t = s.drop_last();
        assert(distinct_pids(t));
        lemma_entries_map(t);
        assert(!entries_map(t).dom().contains(s.last().pid)) by {
            if entries_map(t).dom().contains(s.last().pid) {
                let i = choose|i: int| 0 <= i < t.len() && #[trigger] t[i].pid == s.last().pid;
                assert(s[i].pid == s[s.len() - 1].pid);
            }
        }
        assert forall|k: i32| entries_map(s).dom().contains(k) implies exists|i: int| 0 <= i < s.len() && #[trigger] s[i].pid == k by {
            if k != s.last().pid {
                let i = choose|i: int| 0 <= i < t.len() && #[trigger] t[i].pid == k;
                assert(s[i].pid == k);
            } else {
                assert(s[s.len() - 1].pid == k);
            }
        }
        assert forall|k: i32| (exists|i: int| 0 <= i < s.len() && #[trigger] s[i].pid == k) implies entries_map(s).dom().contains(k) by {
            let i = choose|i: int| 0 <= i < s.len() && #[trigger] s[i].pid == k;
            if i < s.len() - 1 {
                assert(t[i].pid == k);
            }
        }
        assert forall|i: int| 0 <= i < s.len() implies entries_map(s)[#[trigger] s[i].pid] == s[i] by {
            if i < s.len() - 1 {
                assert(t[i] == s[i]);
                assert(s[i].pid != s.last().pid);
            }
        }
    }
}

impl ProcessTable {
    /// No two entries have the same id.
    #[verifier::type_invariant]
    pub closed spec fn well_formed(self) -> bool {
        distinct_pids(self.entries@.map_values(|p: ProcessInfo| p@))
    }

    /// The entries in the order they are kept.
    pub closed spec fn entries_view(self) -> Seq<ProcView> {
        self.entries@.map_values(|p: ProcessInfo| p@)
    }

    /// The processes as a map from id to process.
    pub open spec fn view_map(self) -> Map<i32, ProcView> {
        entries_map(self.entries_view())
    }

    pub proof fn lemma_view(self)
        requires
            self.well_formed(),
        ensures
            distinct_pids(self.entries_view()),
            self.view_map().dom().finite(),
            self.view_map().dom().len() == self.entries_view().len(),
            forall|k: i32| self.view_map().dom().contains(k) <==> exists|i: int| 0 <= i < self.entries_view().len() && #[trigger] self.entries_view()[i].pid == k,
            forall|i: int| 0 <= i < self.entries_view().len() ==> self.view_map()[#[trigger] self.entries_view()[i].pid] == self.entries_view()[i],
    {
        lemma_entries_map(self.entries_view());
    }

    /// An empty table.
    pub fn new() -> (t: ProcessTable)
        ensures
            t.view_map() == Map::<i32, ProcView>::empty(),
            t.entries_view().len() == 0,
    {
        let t = ProcessTable { entries: Vec::new() };
        assert(t.entries_view() =~= Seq::<ProcView>::empty());
        t
    }

    /// How many processes the table holds.
    pub fn len(&self) -> (n: usize)
        ensures
            n == self.entries_view().len(),
            n == self.view_map().dom().len(),
    {
        proof {
            use_type_invariant(self);
            self.lemma_view();
        }
        self.entries.len()
    }

    pub fn is_empty(&self) -> (b: bool)
        ensures
            b == (self.view_map().dom().len() == 0),
    {
        self.len() == 0
    }

    /// The `i`-th entry in the order kept.
    pub fn entry(&self, i: usize) -> (p: &ProcessInfo)
        requires
            i < self.entries_view().len(),
        ensures
            p@ == self.entries_view()[i as int],
    {
        &self.entries[i]
    }

    /// The process with id `pid`, if there is one.
    pub fn get(&self, pid: i32) -> (r: Option<&ProcessInfo>)
        ensures
            match r {
                Some(p) => self.view_map().dom().contains(pid) && p@ == self.view_map()[pid],
                None => !self.view_map().dom().contains(pid),
            },
    {
        proof {
            use_type_invariant(self);
            self.lemma_view();
        }
        let mut i: usize = 0;
        while i < self.entries.len()
            invariant
                i <= self.entries.len(),
                self.entries_view().len() == self.entries.len(),
                forall|j: int| 0 <= j < i ==> self.entries_view()[j].pid != pid,
            decreases self.entries.len() - i,
        {
            if self.entries[i].pid == pid {
                proof {
                    use_type_invariant(self);
                    self.lemma_view();
                    assert(self.entries_view()[i as int] == self.entries[i as int]@);
                    assert(self.view_map()[self.entries_view()[i as int].pid] == self.entries_view()[i as int]);
                }
                return Some(&self.entries[i]);
            }
            i = i + 1;
        }
        proof {
            use_type_invariant(self);
            self.lemma_view();
            if self.view_map().dom().contains(pid) {
                let j = choose|j: int| 0 <= j < self.entries_view().len() && #[trigger] self.entries_view()[j].pid == pid;
                assert(self.entries_view()[j].pid != pid);
            }
        }
        None
    }

    /// Puts `info` in the table under its id, replacing any process already
    /// there with that id (as `HashMap::insert` does).
    pub fn insert(&mut self, info: ProcessInfo)
        ensures
            final(self).view_map() == old(self).view_map().insert(info.pid, info@),
    {
        proof {
            use_type_invariant(&*self);
            self.lemma_view();
        }
        let ghost old_map = self.view_map();
        let ghost old_entries = self.entries_view();
        let mut entries: Vec<ProcessInfo> = Vec::new();
        std::mem::swap(&mut entries, &mut self.entries);
        assert(entries@.map_values(|p: ProcessInfo| p@) == old_entries);
        let mut i: usize = 0;
        let n = entries.len();
        while i < n
            invariant
                i <= n == entries.len(),
                entries@.map_values(|p: ProcessInfo| p@) == old_entries,
                old_entries.len() == n,
                distinct_pids(old_entries),
                old_map == entries_map(old_entries),
                old_map == old(self).view_map(),
                forall|j: int| 0 <= j < i ==> old_entries[j].pid != info.pid,
            decreases n - i,
        {
            if entries[i].pid == info.pid {
                assert(old_entries[i as int].pid == info.pid);
                let ghost new_entries = old_entries.update(i as int, info@);
                proof {
                    lemma_entries_map(old_entries);
                    assert(distinct_pids(new_entries));
                    lemma_entries_map(new_entries);
                    assert forall|k: i32| #[trigger] entries_map(new_entries).dom().contains(k) <==> old_map.insert(info.pid, info@).dom().contains(k) by {
                        if entries_map(new_entries).dom().contains(k) {
                            let j = choose|j: int| 0 <= j < new_entries.len() && #[trigger] new_entries[j].pid == k;
                            if j != i {
                                assert(old_entries[j].pid == k);
                            }
                        }
                        if old_map.dom().contains(k) && k != info.pid {
                            let j = choose|j: int| 0 <= j < old_entries.len() && #[trigger] old_entries[j].pid == k;
                            assert(new_entries[j].pid == k);
                        }
                        if k == info.pid {
                            assert(new_entries[i as int].pid == k);
                        }
                    }
                    assert forall|k: i32| #[trigger] entries_map(new_entries).dom().contains(k) implies entries_map(new_entries)[k] == old_map.insert(info.pid, info@)[k] by {
                        let j = choose|j: int| 0 <= j < new_entries.len() && #[trigger] new_entries[j].pid == k;
                        if j != i {
                            assert(old_entries[j].pid == k);
                        }
                    }
                    assert(entries_map(new_entries) =~= old_map.insert(info.pid, info@));
                }
                entries.set(i, info);
                assert(entries@.map_values(|p: ProcessInfo| p@) =~= new_entries);
                self.entries = entries;
                assert(self.entries_view() == new_entries);
                assert(self.view_map() == entries_map(new_entries));
                return;
            }
            i = i + 1;
        }
        let ghost new_entries = old_entries.push(info@);
        proof {
            assert forall|a: int, b: int| 0 <= a < new_entries.len() && 0 <= b < new_entries.len() && a != b implies new_entries[a].pid != new_entries[b].pid by {
                if a < n && b < n {
                    assert(new_entries[a] == old_entries[a] && new_entries[b] == old_entries[b]);
                }
            }
            assert(distinct_pids(new_entries));
            assert(new_entries.drop_last() =~= old_entries);
        }
        entries.push(info);
        assert(entries@.map_values(|p: ProcessInfo| p@) =~= new_entries);
        self.entries = entries;
    }
}

/// What a lookup gives back after an insertion (over the maps that
/// `ProcessTable::insert` and `ProcessTable::get` speak of): the inserted
/// process under its id, and under every other id what was there before.
pub proof fn lemma_insert_then_get(before: Map<i32, ProcView>, info: ProcView, pid: i32)
    ensures
        pid == info.pid ==> before.insert(info.pid, info).dom().contains(pid) && before.insert(info.pid, info)[pid] == info,
        pid != info.pid ==> (before.insert(info.pid, info).dom().contains(pid) == before.dom().contains(pid)),
        pid != info.pid && before.dom().contains(pid) ==> before.insert(info.pid, info)[pid] == before[pid],
{
}

// ---------------------------------------------------------------------------
// Reading `/proc/<pid>/stat`
// ---------------------------------------------------------------------------

/// The position of the first `c` in `s`.
pub open spec fn first_index_of(s: Seq<char>, c: char) -> Option<int> {
    if piece_len(s, c) < s.len() {
        Some(piece_len(s, c) as int)
    } else {
        None
    }
}

/// The position of the last `c` in `s`.
pub open spec fn last_index_of(s: Seq<char>, c: char) -> Option<int>
    decreases s.len(),
{
    if s.len() == 0 {
        None
    } else if s.last() == c {
        Some(s.len() - 1)
    } else {
        last_index_of(s.drop_last(), c)
    }
}

/// The inputs on which reading a stat line would cut a string where no
/// character starts: the first `(` after the last `)`, or a character of more
/// than one byte right after the last `)`.
pub open spec fn stat_cut_is_invalid(s: Seq<char>) -> bool {
    match (first_index_of(s, '('), last_index_of(s, ')')) {
        (Some(o), Some(c)) => c + 2 <= s.len() && (o > c || (s[c + 1] as u32) >= 0x80),
        _ => false,
    }
}

/// What is read from a stat line: the command name between the first `(` and
/// the last `)`; then, among the whitespace-separated fields that start two
/// characters after that `)`, the second as the parent id and the 37th, if it
/// reads as a number, as the last CPU. Nothing when a parenthesis is missing,
/// nothing follows the `)`, there are at most 36 fields or the parent id does
/// not read as an `i32`.
pub open spec fn spec_parse_stat(s: Seq<char>) -> Option<(Seq<char>, i32, Option<u32>)> {
    match (first_index_of(s, '('), last_index_of(s, ')')) {
        (Some(o), Some(c)) => {
            if c + 2 > s.len() {
                None
            } else {
                let fields = words(s.skip(c + 2));
                if fields.len() <= 36 {
                    None
                } else {
                    match spec_parse_i32(fields[1]) {
                        Some(ppid) => Some((s.subrange(o + 1, c), ppid, spec_parse_u32(fields[36]))),
                        None => None,
                    }
                }
            }
        },
        _ => None,
    }
}

/// On a stat line with both parentheses and at least 37 fields after the
/// last `)`, the result exists exactly when the second field reads as an
/// `i32`, and then the parent id is that number, whatever its sign or value:
/// a line whose parent field is `p` written in decimal (`0` for the kernel's
/// own first processes) gives parent id `p`.
pub proof fn lemma_stat_parent_id(s: Seq<char>, o: int, c: int, p: i32)
    requires
        first_index_of(s, '(') == Some(o),
        last_index_of(s, ')') == Some(c),
        c + 2 <= s.len(),
        words(s.skip(c + 2)).len() > 36,
    ensures
        spec_parse_stat(s) is Some <==> spec_parse_i32(words(s.skip(c + 2))[1]) is Some,
        match spec_parse_i32(words(s.skip(c + 2))[1]) {
            Some(q) => spec_parse_stat(s) == Some(
                (s.subrange(o + 1, c), q, spec_parse_u32(words(s.skip(c + 2))[36])),
            ),
            None => spec_parse_stat(s) is None,
        },
        words(s.skip(c + 2))[1] == decimal_int(p as int) ==> spec_parse_stat(s) == Some(
            (s.subrange(o + 1, c), p, spec_parse_u32(words(s.skip(c + 2))[36])),
        ),
{
    lemma_i32_round_trip(p);
}

pub open spec fn stat_view(r: Option<(String, i32, Option<u32>)>) -> Option<(Seq<char>, i32, Option<u32>)> {
    match r {
        Some((n, p, l)) => Some((n@, p, l)),
        None => None,
    }
}

proof fn lemma_last_index_of(s: Seq<char>, c: char)
    ensures
        match last_index_of(s, c) {
            Some(k) => 0 <= k < s.len() && s[k] == c && forall|j: int| k < j < s.len() ==> s[j] != c,
            None => forall|j: int| 0 <= j < s.len() ==> s[j] != c,
        },
    decreases s.len(),
{
    if s.len() > 0 && s.last() != c {
        lemma_last_index_of(s.drop_last(), c);
        assert forall|j: int| 0 <= j < s.len() - 1 implies s[j] == s.drop_last()[j] by {}
    }
}

proof fn lemma_last_index_is(s: Seq<char>, c: char, k: int)
    requires
        -1 <= k < s.len(),
        k >= 0 ==> s[k] == c,
        forall|j: int| k < j < s.len() ==> s[j] != c,
    ensures
        last_index_of(s, c) == (if k >= 0 { Some(k) } else { None::<int> }),
    decreases s.len(),
{
    if s.len() > 0 && k < s.len() - 1 {
        lemma_last_index_is(s.drop_last(), c, k);
    }
}

fn find_first(v: &Vec<char>, c: char) -> (r: Option<usize>)
    ensures
        match first_index_of(v@, c) {
            Some(k) => r == Some(k as usize),
            None => r is None,
        },
{
    let mut i: usize = 0;
    while i < v.len()
        invariant
            i <= v.len(),
            forall|j: int| 0 <= j < i ==> v@[j] != c,
        decreases v.len() - i,
    {
        if v[i] == c {
            proof {
                lemma_piece_len_is(v@, c, i as int);
            }
            return Some(i);
        }
        i = i + 1;
    }
    proof {
        lemma_piece_len_is(v@, c, v.len() as int);
    }
    None
}

fn find_last(v: &Vec<char>, c: char) -> (r: Option<usize>)
    ensures
        match last_index_of(v@, c) {
            Some(k) => r == Some(k as usize),
            None => r is None,
        },
{
    let mut i: usize = v.len();
    while i > 0
        invariant
            i <= v.len(),
            forall|j: int| i <= j < v.len() ==> v@[j] != c,
        decreases i,
    {
        if v[i - 1] == c {
            proof {
                lemma_last_index_is(v@, c, i - 1);
            }
            return Some(i - 1);
        }
        i = i - 1;
    }
    proof {
        lemma_last_index_is(v@, c, -1);
    }
    None
}

/// Whether reading `content` as a stat line would cut it where no character
/// starts (see `stat_cut_is_invalid`).
pub fn stat_cut_invalid(content: &str) -> (b: bool)
    ensures
        b == stat_cut_is_invalid(content@),
{
    let v = chars_of(content);
    proof {
        lemma_last_index_of(v@, ')');
    }
    match (find_first(&v, '('), find_last(&v, ')')) {
        (Some(o), Some(c)) => c + 1 < v.len() && (o > c || (v[c + 1] as u32) >= 0x80),
        _ => false,
    }
}

/// Reads the command name, the parent id and the last CPU from the text of
/// `/proc/<pid>/stat`.
pub fn parse_stat(content: &str) -> (r: Option<(String, i32, Option<u32>)>)
    requires
        !stat_cut_is_invalid(content@),
    ensures
        stat_view(r) == spec_parse_stat(content@),
{
    let v = chars_of(content);
    let open_paren = match find_first(&v, '(') {
        Some(o) => o,
        None => return None,
    };
    let close_paren = match find_last(&v, ')') {
        Some(c) => c,
        None => return None,
    };
    proof {
        lemma_last_index_of(v@, ')');
        lemma_piece_len_bound(v@, '(');
    }
    if close_paren + 1 >= v.len() {
        return None;
    }
    let name = string_between(&v, open_paren + 1, close_paren);
    let fields = word_bounds(&v, close_paren + 2, v.len());
    assert(v@.subrange(close_paren + 2, v.len() as int) =~= v@.skip(close_paren + 2));
    if fields.len() <= 36 {
        return None;
    }
    let (a, b) = fields[1];
    let ppid = match parse_i32_range(&v, a, b) {
        Some(p) => p,
        None => return None,
    };
    let (c, d) = fields[36];
    let last_cpu = parse_u32_range(&v, c, d);
    Some((name, ppid, last_cpu))
}

} // verus!

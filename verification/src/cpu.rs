//! The CPU frequency policies that the kernel shows under
//! `/sys/devices/system/cpu/cpufreq`: what is read from the files of one
//! policy, and the values written back to them.
use vstd::prelude::*;

use crate::numeric::{
    decimal, format_u32, is_digit, lemma_decimal_is_digits, lemma_u32_round_trip, parse_usize_range,
    spec_parse_u32, spec_parse_usize,
};
use crate::text::{
    chars_of, is_whitespace, join_with, lemma_join_ends, lemma_split_join, lemma_trim_edges, split_on,
    split_string, strings_view, strip_prefixes, trim, trim_string,
};

verus! {

/// A value to write to a policy file: text as it is, or a number in decimal.
pub enum Val {
    String(String),
    Int(u32),
}

impl Val {
    /// The text that is written to the file for this value.
    pub open spec fn spec_contents(&self) -> Seq<char> {
        match self {
            Val::String(s) => s@,
            Val::Int(i) => decimal(*i as nat),
        }
    }

    /// The text that is written to the file for this value.
    pub fn to_contents(&self) -> (s: String)
        ensures
            s@ == self.spec_contents(),
    {
        match self {
            Val::String(s) => s.clone(),
            Val::Int(i) => format_u32(*i),
        }
    }
}

/// A number written to a policy file reads back, as `u32`, as the same number.
pub proof fn lemma_int_contents_read_back(i: u32)
    ensures
        spec_parse_u32(Val::Int(i).spec_contents()) == Some(i),
{
    lemma_u32_round_trip(i);
}

/// What was read for one policy: the directory (`.../policy<N>`), its last
/// component, and the text of six of its files as the kernel gave it.
pub struct PolicyReading {
    pub path: String,
    pub name: String,
    pub available_governors: String,
    pub cur_freq: String,
    pub driver: String,
    pub governor: String,
    pub max_freq: String,
    pub min_freq: String,
}

/// One CPU frequency policy.
pub struct Cpu {
    pub id: u32,
    pub path: String,
    pub scaling_gov: String,
    pub scaling_available_governors: Vec<String>,
    pub scaling_cur_freq: String,
    pub scaling_driver: String,
    pub scaling_governor: String,
    pub scaling_max_freq: String,
    pub scaling_min_freq: String,
}

/// All the policies, and the directories they were read from.
pub struct CPUState {
    pub cpu: Vec<Cpu>,
    pub path: Vec<String>,
}

/// The policy number in a directory name: `policy` removed from the front as
/// often as it is there, the rest read as a `usize`, kept in 32 bits.
pub open spec fn policy_id(name: Seq<char>) -> Option<u32> {
    match spec_parse_usize(strip_prefixes(name, "policy"@)) {
        Some(n) => Some(n as u32),
        None => None,
    }
}

/// The policy described by a reading: its number, its directory, the
/// available governors (the trimmed file split at single spaces) and the
/// other files trimmed.
pub open spec fn describes(cpu: Cpu, r: PolicyReading) -> bool {
    &&& policy_id(r.name@) == Some(cpu.id)
    &&& cpu.path@ == r.path@
    &&& strings_view(cpu.scaling_available_governors@) == split_on(trim(r.available_governors@), ' ')
    &&& cpu.scaling_cur_freq@ == trim(r.cur_freq@)
    &&& cpu.scaling_driver@ == trim(r.driver@)
    &&& cpu.scaling_governor@ == trim(r.governor@)
    &&& cpu.scaling_gov@ == trim(r.governor@)
    &&& cpu.scaling_max_freq@ == trim(r.max_freq@)
    &&& cpu.scaling_min_freq@ == trim(r.min_freq@)
}

/// A directory named `policy` followed by a number written in decimal has
/// that number as its id.
pub proof fn lemma_policy_id_of_name(n: u32)
    ensures
        policy_id("policy"@ + decimal(n as nat)) == Some(n),
{
    reveal_strlit("policy");
    let p = "policy"@;
    let d = decimal(n as nat);
    lemma_decimal_is_digits(n as nat);
    let s = p + d;
    assert(s.take(6) =~= p);
    assert(s.skip(6) =~= d);
    assert(is_digit(d[0]));
    assert(strip_prefixes(d, p) == d) by {
        if d.len() >= 6 {
            assert(d.take(6)[0] != p[0]);
        }
    }
    assert(strip_prefixes(s, p) == d);
}

/// The available governors of a policy are its file's text, trimmed, cut at
/// single spaces: joined back with spaces they give the trimmed text, none
/// holds a space, and when the text holds more than whitespace neither the
/// first nor the last governor is empty (a space before the final newline
/// gives no empty governor at the end).
pub proof fn lemma_governors_rejoin(cpu: Cpu, r: PolicyReading)
    requires
        describes(cpu, r),
    ensures
        join_with(strings_view(cpu.scaling_available_governors@), ' ') == trim(r.available_governors@),
        forall|i: int, j: int|
            0 <= i < cpu.scaling_available_governors@.len() && 0 <= j < cpu.scaling_available_governors@[i]@.len()
                ==> cpu.scaling_available_governors@[i]@[j] != ' ',
        trim(r.available_governors@).len() > 0 ==> {
            &&& cpu.scaling_available_governors@.len() >= 1
            &&& cpu.scaling_available_governors@[0]@.len() > 0
            &&& cpu.scaling_available_governors@.last()@.len() > 0
        },
{
    let t = trim(r.available_governors@);
    let g = strings_view(cpu.scaling_available_governors@);
    lemma_split_join(t, ' ');
    lemma_trim_edges(r.available_governors@);
    assert forall|i: int, j: int|
        0 <= i < cpu.scaling_available_governors@.len() && 0 <= j < cpu.scaling_available_governors@[i]@.len()
            implies cpu.scaling_available_governors@[i]@[j] != ' ' by {
        assert(g[i] == cpu.scaling_available_governors@[i]@);
        assert(g[i][j] != ' ');
    }
    if t.len() > 0 {
        lemma_join_ends(g, ' ');
        assert(g[0] == cpu.scaling_available_governors@[0]@);
        assert(g.last() == cpu.scaling_available_governors@.last()@);
        assert(is_whitespace(' '));
        if g[0].len() == 0 {
            if g.len() == 1 {
                assert(t.len() == 0);
            } else {
                assert(t[0] == ' ');
            }
        }
        if g.last().len() == 0 {
            if g.len() == 1 {
                assert(t.len() == 0);
            } else {
                assert(t[t.len() - 1] == ' ');
                assert(t.last() == ' ');
            }
        }
    }
}

/// Where the text after the removed `policy` prefixes starts.
fn strip_prefixes_start(v: &Vec<char>, p: &Vec<char>) -> (start: usize)
    ensures
        start <= v.len(),
        v@.skip(start as int) == strip_prefixes(v@, p@),
{
    let mut start: usize = 0;
    assert(v@.skip(0) =~= v@);
    while p.len() > 0 && v.len() - start >= p.len()
        invariant
            start <= v.len(),
            strip_prefixes(v@, p@) == strip_prefixes(v@.skip(start as int), p@),
        decreases v.len() - start,
    {
        let ghost rest = v@.skip(start as int);
        let mut k: usize = 0;
        while k < p.len() && v[start + k] == p[k]
            invariant
                k <= p.len(),
                start + p.len() <= v.len(),
                forall|j: int| 0 <= j < k ==> v@[start + j] == p@[j],
            decreases p.len() - k,
        {
            k = k + 1;
        }
        if k < p.len() {
            assert(rest.take(p.len() as int) != p@) by {
                assert(rest.take(p.len() as int)[k as int] == v@[start + k]);
            }
            return start;
        }
        assert(rest.take(p.len() as int) =~= p@);
        assert(rest.skip(p.len() as int) =~= v@.skip(start + p.len()));
        start = start + p.len();
    }
    start
}

/// The policy number in a directory name such as `policy3`.
pub fn parse_policy_id(name: &str) -> (r: Option<u32>)
    ensures
        r == policy_id(name@),
{
    let v = chars_of(name);
    let p = chars_of("policy");
    let start = strip_prefixes_start(&v, &p);
    assert(v@.subrange(start as int, v.len() as int) =~= v@.skip(start as int));
    match parse_usize_range(&v, start, v.len()) {
        Some(n) => Some(n as u32),
        None => None,
    }
}

impl Cpu {
    /// The policy that a reading describes.
    pub fn from_reading(r: &PolicyReading) -> (cpu: Cpu)
        requires
            policy_id(r.name@) is Some,
        ensures
            describes(cpu, *r),
    {
        let id = match parse_policy_id(r.name.as_str()) {
            Some(id) => id,
            None => 0,
        };
        let available = trim_string(r.available_governors.as_str());
        let governors = split_string(available.as_str(), ' ');
        let governor = trim_string(r.governor.as_str());
        Cpu {
            id,
            path: r.path.clone(),
            scaling_gov: governor.clone(),
            scaling_available_governors: governors,
            scaling_cur_freq: trim_string(r.cur_freq.as_str()),
            scaling_driver: trim_string(r.driver.as_str()),
            scaling_governor: governor,
            scaling_max_freq: trim_string(r.max_freq.as_str()),
            scaling_min_freq: trim_string(r.min_freq.as_str()),
        }
    }
}

impl CPUState {
    /// The policies described by the readings, in the order read, with the
    /// directories they were read from.
    pub fn new(readings: Vec<PolicyReading>) -> (st: CPUState)
        requires
            forall|i: int| 0 <= i < readings.len() ==> (policy_id(#[trigger] readings[i].name@) is Some),
        ensures
            st.cpu.len() == readings.len(),
            st.path.len() == readings.len(),
            forall|i: int| 0 <= i < readings.len() ==> describes(#[trigger] st.cpu[i], readings[i]),
            forall|i: int| 0 <= i < readings.len() ==> (#[trigger] st.path[i])@ == readings[i].path@,
    {
        let mut st = CPUState { cpu: Vec::new(), path: Vec::new() };
        let mut i: usize = 0;
        while i < readings.len()
            invariant
                i <= readings.len(),
                forall|j: int| 0 <= j < readings.len() ==> (policy_id(#[trigger] readings[j].name@) is Some),
                st.cpu.len() == i,
                st.path.len() == i,
                forall|j: int| 0 <= j < i ==> describes(#[trigger] st.cpu[j], readings[j]),
                forall|j: int| 0 <= j < i ==> (#[trigger] st.path[j])@ == readings[j].path@,
            decreases readings.len() - i,
        {
            st.path.push(readings[i].path.clone());
            let cpu = Cpu::from_reading(&readings[i]);
            st.cpu.push(cpu);
            i = i + 1;
        }
        st
    }
}

} // verus!

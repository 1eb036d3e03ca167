//! The terminal view's state and decisions: which policy is selected, how a
//! key press is answered, the process tree shown for the selection, and the
//! sizes and cells of the policy table.
use vstd::prelude::*;

use vstd::string::StringExecFns;

use crate::cpu::{CPUState, Cpu};
use crate::numeric::{decimal, format_u32};
use crate::process::{ProcView, ProcessTable};
use crate::text::strings_view;
use crate::tree::{build_process_tree_lines, tree_lines};

verus! {

// ---------------------------------------------------------------------------
// Keys
// ---------------------------------------------------------------------------

/// A key as the view tells them apart.
pub enum Key {
    Char(char),
    Esc,
    Up,
    Down,
    Other,
}

/// What the view does in answer to a key.
pub enum Action {
    Quit,
    Next,
    Previous,
    Refresh,
    Ignore,
}

/// `q` and Esc quit, Down and `j` select the next policy, Up and `k` the
/// previous one, `r` reads the policies again; keys that are released, and
/// all others, are ignored.
pub open spec fn spec_action(key: Key, pressed: bool) -> Action {
    if !pressed {
        Action::Ignore
    } else {
        match key {
            Key::Char('q') | Key::Esc => Action::Quit,
            Key::Down | Key::Char('j') => Action::Next,
            Key::Up | Key::Char('k') => Action::Previous,
            Key::Char('r') => Action::Refresh,
            _ => Action::Ignore,
        }
    }
}

pub fn action_for_key(key: Key, pressed: bool) -> (a: Action)
    ensures
        a == spec_action(key, pressed),
{
    if !pressed {
        return Action::Ignore;
    }
    match key {
        Key::Char('q') | Key::Esc => Action::Quit,
        Key::Down | Key::Char('j') => Action::Next,
        Key::Up | Key::Char('k') => Action::Previous,
        Key::Char('r') => Action::Refresh,
        _ => Action::Ignore,
    }
}

// ---------------------------------------------------------------------------
// Selection
// ---------------------------------------------------------------------------

pub open spec fn index_or_zero(selected: Option<usize>) -> nat {
    match selected {
        Some(i) => i as nat,
        None => 0,
    }
}

/// The selection when the view starts: the first policy, if there is one.
pub open spec fn initial_index(len: nat) -> Option<usize> {
    if len == 0 {
        None
    } else {
        Some(0)
    }
}

/// The next policy, wrapping round from the last to the first.
pub open spec fn next_index(selected: Option<usize>, len: nat) -> Option<usize> {
    if len == 0 {
        None
    } else if index_or_zero(selected) >= len - 1 {
        Some(0)
    } else {
        Some((index_or_zero(selected) + 1) as usize)
    }
}

/// The previous policy, wrapping round from the first to the last.
pub open spec fn previous_index(selected: Option<usize>, len: nat) -> Option<usize> {
    if len == 0 {
        None
    } else if index_or_zero(selected) == 0 {
        Some((len - 1) as usize)
    } else {
        Some((index_or_zero(selected) - 1) as usize)
    }
}

/// After the policies are read again: the same position, or the last
/// policy if there are fewer now.
pub open spec fn refreshed_index(selected: Option<usize>, len: nat) -> Option<usize> {
    if len == 0 {
        None
    } else if index_or_zero(selected) <= len - 1 {
        Some(index_or_zero(selected) as usize)
    } else {
        Some((len - 1) as usize)
    }
}

/// The id of the selected policy.
pub open spec fn selected_id(cpus: Seq<Cpu>, selected: Option<usize>) -> Option<u32> {
    match selected {
        Some(i) => if i < cpus.len() {
            Some(cpus[i as int].id)
        } else {
            None
        },
        None => None,
    }
}

/// The lines shown below the table: the process tree of the selected
/// policy's CPU, or a note that none is selected.
pub open spec fn process_text(m: Map<i32, ProcView>, id: Option<u32>) -> Seq<Seq<char>> {
    match id {
        Some(c) => tree_lines(m, c),
        None => seq!["no cpu selected"@],
    }
}

/// The state of the view: the policies, the selected one, and the lines of
/// the process tree shown for it.
pub struct App {
    cpu_state: CPUState,
    selected: Option<usize>,
    process_tree_lines: Vec<String>,
}

fn selected_id_of(cpus: &Vec<Cpu>, selected: Option<usize>) -> (r: Option<u32>)
    ensures
        r == selected_id(cpus@, selected),
{
    match selected {
        Some(i) => if i < cpus.len() {
            Some(cpus[i].id)
        } else {
            None
        },
        None => None,
    }
}

fn process_lines(cpus: &Vec<Cpu>, selected: Option<usize>, processes: &ProcessTable) -> (lines: Vec<
    String,
>)
    ensures
        strings_view(lines@) == process_text(processes.view_map(), selected_id(cpus@, selected)),
{
    match selected_id_of(cpus, selected) {
        Some(id) => build_process_tree_lines(id, processes),
        None => {
            let lines = vec![String::from_str("no cpu selected")];
            assert(strings_view(lines@) =~= seq!["no cpu selected"@]);
            lines
        },
    }
}

impl App {
    /// A policy is selected exactly when there are policies, and it is one of them.
    #[verifier::type_invariant]
    pub closed spec fn selection_valid(self) -> bool {
        match self.selected {
            Some(i) => i < self.cpu_state.cpu.len(),
            None => self.cpu_state.cpu.len() == 0,
        }
    }

    pub closed spec fn spec_cpus(self) -> Seq<Cpu> {
        self.cpu_state.cpu@
    }

    /// The directories the shown policies were read from.
    pub closed spec fn spec_paths(self) -> Seq<String> {
        self.cpu_state.path@
    }

    pub closed spec fn spec_selected(self) -> Option<usize> {
        self.selected
    }

    pub closed spec fn spec_lines(self) -> Seq<Seq<char>> {
        strings_view(self.process_tree_lines@)
    }

    /// The view over `cpu_state`, the first policy selected if there is one.
    pub fn new(cpu_state: CPUState, processes: &ProcessTable) -> (app: App)
        ensures
            app.spec_cpus() == cpu_state.cpu@,
            app.spec_paths() == cpu_state.path@,
            app.spec_selected() == initial_index(cpu_state.cpu.len() as nat),
            app.spec_lines() == process_text(
                processes.view_map(),
                selected_id(cpu_state.cpu@, initial_index(cpu_state.cpu.len() as nat)),
            ),
    {
        let selected = if cpu_state.cpu.len() == 0 {
            None
        } else {
            Some(0)
        };
        let lines = process_lines(&cpu_state.cpu, selected, processes);
        App { cpu_state, selected, process_tree_lines: lines }
    }

    /// The policies shown.
    pub fn cpu_state(&self) -> (s: &CPUState)
        ensures
            s.cpu@ == self.spec_cpus(),
            s.path@ == self.spec_paths(),
    {
        &self.cpu_state
    }

    /// The selected position; there is one exactly when there are policies,
    /// and it is always one of them.
    pub fn selected(&self) -> (r: Option<usize>)
        ensures
            r == self.spec_selected(),
            r is None <==> self.spec_cpus().len() == 0,
            r matches Some(i) ==> i < self.spec_cpus().len(),
    {
        proof {
            use_type_invariant(self);
        }
        self.selected
    }

    /// The lines of the process tree shown.
    pub fn process_tree_lines(&self) -> (lines: &Vec<String>)
        ensures
            strings_view(lines@) == self.spec_lines(),
    {
        &self.process_tree_lines
    }

    /// The id of the selected policy.
    pub fn selected_cpu_id(&self) -> (r: Option<u32>)
        ensures
            r == selected_id(self.spec_cpus(), self.spec_selected()),
    {
        selected_id_of(&self.cpu_state.cpu, self.selected)
    }

    /// Draws the process tree again for the selected policy.
    pub fn update_process_tree(&mut self, processes: &ProcessTable)
        ensures
            final(self).spec_cpus() == old(self).spec_cpus(),
            final(self).spec_paths() == old(self).spec_paths(),
            final(self).spec_selected() == old(self).spec_selected(),
            final(self).spec_lines() == process_text(
                processes.view_map(),
                selected_id(old(self).spec_cpus(), old(self).spec_selected()),
            ),
    {
        proof {
            use_type_invariant(&*self);
        }
        let lines = process_lines(&self.cpu_state.cpu, self.selected, processes);
        self.process_tree_lines = lines;
    }

    /// Selects the next policy.
    pub fn select_next(&mut self, processes: &ProcessTable)
        ensures
            final(self).spec_cpus() == old(self).spec_cpus(),
            final(self).spec_paths() == old(self).spec_paths(),
            final(self).spec_selected() == next_index(old(self).spec_selected(), old(self).spec_cpus().len()),
            final(self).spec_lines() == process_text(
                processes.view_map(),
                selected_id(old(self).spec_cpus(), final(self).spec_selected()),
            ),
    {
        proof {
            use_type_invariant(&*self);
        }
        let len = self.cpu_state.cpu.len();
        let selected = if len == 0 {
            None
        } else {
            let index = match self.selected {
                Some(i) => i,
                None => 0,
            };
            if index >= len - 1 {
                Some(0)
            } else {
                Some(index + 1)
            }
        };
        let lines = process_lines(&self.cpu_state.cpu, selected, processes);
        self.selected = selected;
        self.process_tree_lines = lines;
    }

    /// Selects the previous policy.
    pub fn select_previous(&mut self, processes: &ProcessTable)
        ensures
            final(self).spec_cpus() == old(self).spec_cpus(),
            final(self).spec_paths() == old(self).spec_paths(),
            final(self).spec_selected() == previous_index(old(self).spec_selected(), old(self).spec_cpus().len()),
            final(self).spec_lines() == process_text(
                processes.view_map(),
                selected_id(old(self).spec_cpus(), final(self).spec_selected()),
            ),
    {
        proof {
            use_type_invariant(&*self);
        }
        let len = self.cpu_state.cpu.len();
        let selected = if len == 0 {
            None
        } else {
            let index = match self.selected {
                Some(i) => i,
                None => 0,
            };
            if index == 0 {
                Some(len - 1)
            } else {
                Some(index - 1)
            }
        };
        let lines = process_lines(&self.cpu_state.cpu, selected, processes);
        self.selected = selected;
        self.process_tree_lines = lines;
    }

    /// Shows the policies read again, keeping the selected position where it
    /// still exists.
    pub fn refresh(&mut self, cpu_state: CPUState, processes: &ProcessTable)
        ensures
            final(self).spec_cpus() == cpu_state.cpu@,
            final(self).spec_paths() == cpu_state.path@,
            final(self).spec_selected() == refreshed_index(old(self).spec_selected(), cpu_state.cpu.len() as nat),
            final(self).spec_lines() == process_text(
                processes.view_map(),
                selected_id(cpu_state.cpu@, final(self).spec_selected()),
            ),
    {
        let index = match self.selected {
            Some(i) => i,
            None => 0,
        };
        let len = cpu_state.cpu.len();
        let selected = if len == 0 {
            None
        } else if index <= len - 1 {
            Some(index)
        } else {
            Some(len - 1)
        };
        let lines = process_lines(&cpu_state.cpu, selected, processes);
        *self = App { cpu_state, selected, process_tree_lines: lines };
    }
}

// ---------------------------------------------------------------------------
// Laws of the selection
// ---------------------------------------------------------------------------

/// Going to the next policy and back to the previous one returns to the
/// policy one started from, and so does the other way round.
pub proof fn lemma_next_previous_inverse(i: usize, len: nat)
    requires
        i < len <= usize::MAX,
    ensures
        previous_index(next_index(Some(i), len), len) == Some(i),
        next_index(previous_index(Some(i), len), len) == Some(i),
{
}

/// Reading the policies again keeps the selected position when it still
/// exists, selects the last policy when there are fewer now, and selects
/// nothing when there are none.
pub proof fn lemma_refresh_keeps_position(i: usize, len: nat)
    requires
        len <= usize::MAX,
    ensures
        i < len ==> refreshed_index(Some(i), len) == Some(i),
        i >= len && len > 0 ==> refreshed_index(Some(i), len) == Some((len - 1) as usize),
        len == 0 ==> refreshed_index(Some(i), len) is None,
{
}

/// Reading the policies again when nothing is selected (the view held no
/// policies) selects the first of the policies read, if there are any: the
/// same selection the view starts with. A selection that still exists is
/// kept, and only one beyond the new policies moves to the last of them.
pub proof fn lemma_refresh_from_nothing(len: nat)
    requires
        len <= usize::MAX,
    ensures
        refreshed_index(None, len) == initial_index(len),
        len > 0 ==> refreshed_index(None, len) == Some(0usize),
        forall|i: usize|
            #[trigger] refreshed_index(Some(i), len) == (if len == 0 {
                None
            } else if i < len {
                Some(i)
            } else {
                Some((len - 1) as usize)
            }),
{
}

/// Only presses do anything: a key that is released (or repeated as
/// anything but a press) is ignored whatever it is, and of the presses only
/// `q`/Esc, Down/`j`, Up/`k` and `r` have an effect.
pub proof fn lemma_only_presses_act(key: Key)
    ensures
        spec_action(key, false) == Action::Ignore,
        spec_action(key, true) == Action::Quit <==> (key == Key::Char('q') || key == Key::Esc),
        spec_action(key, true) == Action::Next <==> (key == Key::Down || key == Key::Char('j')),
        spec_action(key, true) == Action::Previous <==> (key == Key::Up || key == Key::Char('k')),
        spec_action(key, true) == Action::Refresh <==> key == Key::Char('r'),
{
}

/// The selection after `k` moves, each to the next policy when `forward`
/// and to the previous one otherwise.
pub open spec fn repeat_move(selected: Option<usize>, len: nat, forward: bool, k: nat) -> Option<usize>
    decreases k,
{
    if k == 0 {
        selected
    } else {
        let s = repeat_move(selected, len, forward, (k - 1) as nat);
        if forward {
            next_index(s, len)
        } else {
            previous_index(s, len)
        }
    }
}

/// Selecting the next policy `k` times from position `i` lands on position
/// `(i + k) mod len`, and selecting the previous one `k` times on
/// `(i - k) mod len`: the selection goes round the policies in a cycle.
pub proof fn lemma_selection_cycles(i: usize, len: nat, k: nat)
    requires
        i < len <= usize::MAX,
    ensures
        repeat_move(Some(i), len, true, k) == Some(((i + k) % (len as int)) as usize),
        repeat_move(Some(i), len, false, k) == Some(((i - k) % (len as int)) as usize),
    decreases k,
{
    let n = len as int;
    if k == 0 {
        vstd::arithmetic::div_mod::lemma_small_mod(i as nat, len);
    } else {
        lemma_selection_cycles(i, len, (k - 1) as nat);
        let a = (i + k - 1) % n;
        let b = (i - (k - 1)) % n;
        vstd::arithmetic::div_mod::lemma_mod_bound(i + k - 1, n);
        vstd::arithmetic::div_mod::lemma_mod_bound(i - (k - 1), n);
        vstd::arithmetic::div_mod::lemma_add_mod_noop(i + k - 1, 1, n);
        vstd::arithmetic::div_mod::lemma_sub_mod_noop(i - (k - 1), 1, n);
        if n == 1 {
            vstd::arithmetic::div_mod::lemma_mod_bound(i + k, n);
            vstd::arithmetic::div_mod::lemma_mod_bound(i - k, n);
        } else {
            vstd::arithmetic::div_mod::lemma_small_mod(1, len);
            if a + 1 < n {
                vstd::arithmetic::div_mod::lemma_small_mod((a + 1) as nat, len);
            } else {
                vstd::arithmetic::div_mod::lemma_mod_self_0(n);
            }
            if b >= 1 {
                vstd::arithmetic::div_mod::lemma_small_mod((b - 1) as nat, len);
            } else {
                vstd::arithmetic::div_mod::lemma_mod_add_multiples_vanish(-1, n);
                vstd::arithmetic::div_mod::lemma_small_mod((n - 1) as nat, len);
            }
        }
    }
}

// ---------------------------------------------------------------------------
// The policy table
// ---------------------------------------------------------------------------

/// How many lines the policy table gets: a header line and one per policy,
/// the count kept in 16 bits and the sum saturating, clamped to at least one
/// line and at most two lines fewer than the screen has (but at least one).
pub open spec fn spec_table_height(cpu_count: nat, area_height: u16) -> u16 {
    let rows = cpu_count as u16;
    let desired: u16 = if rows as int + 1 > u16::MAX { u16::MAX } else { (rows + 1) as u16 };
    let max_height: u16 = if area_height < 2 { 0 } else { (area_height - 2) as u16 };
    let upper: u16 = if max_height < 1 { 1 } else { max_height };
    if desired < 1 {
        1
    } else if desired > upper {
        upper
    } else {
        desired
    }
}

pub fn table_height(cpu_count: usize, area_height: u16) -> (h: u16)
    ensures
        h == spec_table_height(cpu_count as nat, area_height),
        1 <= h,
{
    let rows = cpu_count as u16;
    let desired = rows.saturating_add(1);
    let max_height = area_height.saturating_sub(2);
    let upper = if max_height < 1 {
        1
    } else {
        max_height
    };
    if desired < 1 {
        1
    } else if desired > upper {
        upper
    } else {
        desired
    }
}

/// The cells of a policy's row: id, directory, governor, current, lowest and
/// highest frequency, driver.
pub open spec fn row_text(cpu: Cpu) -> Seq<Seq<char>> {
    seq![
        decimal(cpu.id as nat),
        cpu.path@,
        cpu.scaling_governor@,
        cpu.scaling_cur_freq@,
        cpu.scaling_min_freq@,
        cpu.scaling_max_freq@,
        cpu.scaling_driver@,
    ]
}

pub fn table_row(cpu: &Cpu) -> (cells: Vec<String>)
    ensures
        strings_view(cells@) == row_text(*cpu),
{
    let cells = vec![
        format_u32(cpu.id),
        cpu.path.clone(),
        cpu.scaling_governor.clone(),
        cpu.scaling_cur_freq.clone(),
        cpu.scaling_min_freq.clone(),
        cpu.scaling_max_freq.clone(),
        cpu.scaling_driver.clone(),
    ];
    assert(strings_view(cells@) =~= row_text(*cpu));
    cells
}

} // verus!

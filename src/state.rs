//! The pointer state kept between runs: the active sheet, the sheet that
//! was active before it, and the last entry that was stopped.

use vstd::arithmetic::div_mod::lemma_fundamental_div_mod;
use vstd::prelude::*;

use crate::calendar::{all_digits, digits_value, is_digit, read_number};
use crate::text::{contains_text, digit_char, digits_of, push_digits, same_text};

verus! {

/// The pointer state as a mathematical value.
pub struct StateView {
    pub current_sheet: Seq<char>,
    pub last_sheet: Seq<char>,
    pub last_task: Option<usize>,
}

/// The pointer state: the sheet new entries go to, the sheet that was
/// active before it, and the id of the last entry that was stopped.
#[derive(Debug)]
pub struct State {
    pub current_sheet: String,
    pub last_sheet: String,
    pub last_task: Option<usize>,
}

/// How a sheet stands to the pointer state.
#[derive(Clone, Copy, Debug, PartialEq, Eq, Structural)]
pub enum SheetMark {
    /// The active sheet.
    Current,
    /// The sheet that was active before it.
    Last,
    /// Any other sheet.
    Other,
}

impl View for State {
    type V = StateView;

    open spec fn view(&self) -> StateView {
        StateView {
            current_sheet: self.current_sheet@,
            last_sheet: self.last_sheet@,
            last_task: self.last_task,
        }
    }
}

/// The names that a list of sheet names holds.
pub open spec fn names_of(v: Seq<String>) -> Seq<Seq<char>> {
    v.map_values(|s: String| s@)
}

impl StateView {
    /// Both sheet pointers name a sheet.
    pub open spec fn wf(self) -> bool {
        self.current_sheet.len() > 0 && self.last_sheet.len() > 0
    }

    /// The state after switching to `sheet`: the active sheet becomes the
    /// last one. Switching to the active sheet changes nothing.
    pub open spec fn changed_to(self, sheet: Seq<char>) -> StateView {
        if sheet == self.current_sheet {
            self
        } else {
            StateView { current_sheet: sheet, last_sheet: self.current_sheet, ..self }
        }
    }

    /// The sheet that a checkout request names: `-` stands for the last
    /// sheet.
    pub open spec fn checkout_target(self, name: Seq<char>) -> Seq<char> {
        if name == seq!['-'] {
            self.last_sheet
        } else {
            name
        }
    }

    /// The state after sheet `old_name` is renamed to `new_name`.
    pub open spec fn renamed(self, old_name: Seq<char>, new_name: Seq<char>) -> StateView {
        if self.current_sheet == old_name {
            StateView { current_sheet: new_name, ..self }
        } else {
            self
        }
    }

    /// The state after every entry of sheet `removed` is deleted, where
    /// `remaining` lists the sheets that are left. Leaving the active sheet
    /// moves to the last sheet if it is left, else to the first sheet left,
    /// else to the default; a removed last sheet becomes the default.
    pub open spec fn after_removal(
        self,
        removed: Seq<char>,
        remaining: Seq<Seq<char>>,
        default_sheet: Seq<char>,
    ) -> StateView {
        if self.current_sheet == removed {
            let target = if remaining.contains(self.last_sheet) {
                self.last_sheet
            } else if remaining.len() > 0 {
                remaining[0]
            } else {
                default_sheet
            };
            self.changed_to(target)
        } else if self.last_sheet == removed {
            StateView { last_sheet: default_sheet, ..self }
        } else {
            self
        }
    }
}

impl State {
    /// The state of a first run: both pointers on the default sheet.
    pub fn new(default_sheet: &str) -> (r: State)
        requires
            default_sheet@.len() > 0,
        ensures
            r@ == (StateView {
                current_sheet: default_sheet@,
                last_sheet: default_sheet@,
                last_task: None,
            }),
            r@.wf(),
    {
        State {
            current_sheet: default_sheet.to_owned(),
            last_sheet: default_sheet.to_owned(),
            last_task: None,
        }
    }

    /// Switches to `sheet`; the active sheet becomes the last one. A switch
    /// to the active sheet leaves the state as it is.
    pub fn change_sheet(&mut self, sheet: &str)
        requires
            old(self)@.wf(),
            sheet@.len() > 0,
        ensures
            final(self)@ == old(self)@.changed_to(sheet@),
            final(self)@.wf(),
    {
        if same_text(self.current_sheet.as_str(), sheet) {
            return;
        }
        self.last_sheet = self.current_sheet.clone();
        self.current_sheet = sheet.to_owned();
    }

    /// Handles a request to check out sheet `name` (`-` for the last
    /// sheet). Returns false, changing nothing, when `name` is the active
    /// sheet.
    pub fn checkout(&mut self, name: &str) -> (r: bool)
        requires
            old(self)@.wf(),
            name@.len() > 0,
        ensures
            r == (name@ != old(self)@.current_sheet),
            r ==> final(self)@ == old(self)@.changed_to(old(self)@.checkout_target(name@)),
            !r ==> final(self)@ == old(self)@,
            final(self)@.wf(),
    {
        if same_text(self.current_sheet.as_str(), name) {
            return false;
        }
        proof {
            reveal_strlit("-");
            assert("-"@ =~= seq!['-']);
        }
        if same_text(name, "-") {
            let target = self.last_sheet.clone();
            self.change_sheet(target.as_str());
        } else {
            self.change_sheet(name);
        }
        true
    }

    /// How sheet `sheet` stands to the active and the last sheet.
    pub fn sheet_mark(&self, sheet: &str) -> (r: SheetMark)
        ensures
            r == (if sheet@ == self@.current_sheet {
                SheetMark::Current
            } else if sheet@ == self@.last_sheet {
                SheetMark::Last
            } else {
                SheetMark::Other
            }),
    {
        if same_text(sheet, self.current_sheet.as_str()) {
            SheetMark::Current
        } else if same_text(sheet, self.last_sheet.as_str()) {
            SheetMark::Last
        } else {
            SheetMark::Other
        }
    }

    /// Records the id of the entry that was stopped last.
    pub fn set_last_task(&mut self, id: usize)
        ensures
            final(self)@ == (StateView { last_task: Some(id), ..old(self)@ }),
    {
        self.last_task = Some(id);
    }

    /// Renames the active sheet, leaving the last sheet as it is.
    pub fn update_sheet_name(&mut self, new_name: &str)
        requires
            old(self)@.wf(),
            new_name@.len() > 0,
        ensures
            final(self)@ == (StateView { current_sheet: new_name@, ..old(self)@ }),
            final(self)@.wf(),
    {
        self.current_sheet = new_name.to_owned();
    }

    /// Follows the renaming of sheet `old_name` to `new_name`: the active
    /// sheet is renamed if it was that sheet.
    pub fn rename_sheet(&mut self, old_name: &str, new_name: &str)
        requires
            old(self)@.wf(),
            new_name@.len() > 0,
        ensures
            final(self)@ == old(self)@.renamed(old_name@, new_name@),
            final(self)@.wf(),
    {
        if same_text(self.current_sheet.as_str(), old_name) {
            self.update_sheet_name(new_name);
        }
    }

    /// Moves the pointers off sheet `removed`, whose entries were deleted;
    /// `remaining` lists the sheets that are left.
    pub fn after_sheet_removed(
        &mut self,
        removed: &str,
        remaining: &Vec<String>,
        default_sheet: &str,
    )
        requires
            old(self)@.wf(),
            default_sheet@.len() > 0,
            forall|i: int| 0 <= i < remaining@.len() ==> (#[trigger] remaining@[i])@.len() > 0,
        ensures
            final(self)@ == old(self)@.after_removal(
                removed@,
                names_of(remaining@),
                default_sheet@,
            ),
            final(self)@.wf(),
    {
        let ghost names = names_of(remaining@);
        if same_text(self.current_sheet.as_str(), removed) {
            let last_left = contains_text(remaining, self.last_sheet.as_str());
            proof {
                if last_left {
                    let i = choose|i: int|
                        0 <= i < remaining@.len() && (#[trigger] remaining@[i])@
                            == self.last_sheet@;
                    assert(names[i] == self@.last_sheet);
                } else {
                    assert forall|i: int| 0 <= i < names.len() implies names[i]
                        != self@.last_sheet by {
                        assert(names[i] == remaining@[i]@);
                    }
                }
            }
            if last_left {
                let target = self.last_sheet.clone();
                self.change_sheet(target.as_str());
            } else if remaining.len() > 0 {
                self.change_sheet(remaining[0].as_str());
            } else {
                self.change_sheet(default_sheet);
            }
        } else if same_text(self.last_sheet.as_str(), removed) {
            self.last_sheet = default_sheet.to_owned();
        }
    }
}


/// Switching to one sheet and then to another leaves the first as the
/// last sheet.
pub proof fn lemma_switch_twice_remembers_first(s: StateView, first: Seq<char>, second: Seq<char>)
    requires
        s.wf(),
        first.len() > 0,
        second.len() > 0,
        first != second,
    ensures
        s.changed_to(first).changed_to(second).last_sheet == first,
        s.changed_to(first).changed_to(second).current_sheet == second,
{
}

/// Switching to the active sheet leaves the active and the last sheet as
/// they are.
pub proof fn lemma_switch_to_current_keeps_pointers(s: StateView)
    requires
        s.wf(),
    ensures
        s.changed_to(s.current_sheet).current_sheet == s.current_sheet,
        s.changed_to(s.current_sheet).last_sheet == s.last_sheet,
{
}

/// Index of the first `'\n'` in `s`, or its length if it has none.
pub open spec fn newline_index(s: Seq<char>) -> int
    decreases s.len(),
{
    if s.len() == 0 {
        0
    } else if s[0] == '\n' {
        0
    } else {
        1 + newline_index(s.skip(1))
    }
}

/// The first line of `s`, without its line ending (`\n` or `\r\n`).
pub open spec fn first_line(s: Seq<char>) -> Seq<char> {
    let k = newline_index(s);
    if k < s.len() && k > 0 && s[k - 1] == '\r' {
        s.take(k - 1)
    } else {
        s.take(k)
    }
}

/// What follows the first line of `s` and its line ending.
pub open spec fn after_first_line(s: Seq<char>) -> Seq<char> {
    let k = newline_index(s);
    if k < s.len() {
        s.skip(k + 1)
    } else {
        Seq::empty()
    }
}

/// Line `n` of `s`, counting from 0; a text that ends with a line ending
/// has no empty line after it.
pub open spec fn nth_line(s: Seq<char>, n: nat) -> Option<Seq<char>>
    decreases n,
{
    if s.len() == 0 {
        None
    } else if n == 0 {
        Some(first_line(s))
    } else {
        nth_line(after_first_line(s), (n - 1) as nat)
    }
}

/// Line `n` of a pointer file, or the default where it is absent or empty.
pub open spec fn sheet_line(content: Seq<char>, n: nat, default_sheet: Seq<char>) -> Seq<char> {
    match nth_line(content, n) {
        Some(l) => if l.len() > 0 {
            l
        } else {
            default_sheet
        },
        None => default_sheet,
    }
}

/// The last task id that the third line of a pointer file holds.
pub open spec fn task_line(content: Seq<char>) -> Option<usize> {
    match nth_line(content, 2) {
        Some(l) => if all_digits(l) && digits_value(l) <= usize::MAX {
            Some(digits_value(l) as usize)
        } else {
            None
        },
        None => None,
    }
}

/// The state that a pointer file holds: active sheet, last sheet and last
/// task id, one per line.
pub open spec fn state_of_file(content: Seq<char>, default_sheet: Seq<char>) -> StateView {
    StateView {
        current_sheet: sheet_line(content, 0, default_sheet),
        last_sheet: sheet_line(content, 1, default_sheet),
        last_task: task_line(content),
    }
}

/// The pointer file for a state: active sheet, last sheet, and the last
/// task id or an empty line.
pub open spec fn file_of_state(s: StateView) -> Seq<char> {
    s.current_sheet + seq!['\n'] + s.last_sheet + seq!['\n'] + match s.last_task {
        Some(id) => digits_of(id as nat),
        None => Seq::empty(),
    }
}

proof fn lemma_newline_index(s: Seq<char>, k: int)
    requires
        0 <= k <= s.len(),
        forall|j: int| 0 <= j < k ==> s[j] != '\n',
        k == s.len() || s[k] == '\n',
    ensures
        newline_index(s) == k,
    decreases k,
{
    if k > 0 {
        lemma_newline_index(s.skip(1), k - 1);
    }
}

/// What remains of a text once its first line is read.
pub open spec fn rest_lines(s: Seq<char>) -> Seq<char> {
    if s.len() == 0 {
        s
    } else {
        after_first_line(s)
    }
}

/// Reads the line of `content` that starts at `pos`.
fn next_line(content: &str, pos: usize) -> (r: (Option<String>, usize))
    requires
        pos <= content@.len(),
    ensures
        r.1 <= content@.len(),
        content@.skip(r.1 as int) == rest_lines(content@.skip(pos as int)),
        match r.0 {
            Some(l) => nth_line(content@.skip(pos as int), 0) == Some(l@),
            None => nth_line(content@.skip(pos as int), 0) is None,
        },
{
    let n = content.unicode_len();
    let ghost s = content@.skip(pos as int);
    if pos == n {
        return (None, pos);
    }
    let mut k: usize = pos;
    while k < n && content.get_char(k) != '\n'
        invariant
            pos <= k <= n,
            n == content@.len(),
            forall|j: int| pos <= j < k ==> content@[j] != '\n',
        decreases n - k,
    {
        k = k + 1;
    }
    proof {
        lemma_newline_index(s, k - pos);
    }
    let end: usize = if k < n && k > pos && content.get_char(k - 1) == '\r' {
        k - 1
    } else {
        k
    };
    let line = content.substring_char(pos, end).to_owned();
    proof {
        assert(line@ =~= first_line(s));
    }
    if k < n {
        proof {
            assert(content@.skip(k + 1) =~= s.skip(k - pos + 1));
        }
        (Some(line), k + 1)
    } else {
        proof {
            assert(content@.skip(n as int) =~= Seq::<char>::empty());
        }
        (Some(line), n)
    }
}

impl State {
    /// Reads a pointer file. A missing or empty sheet line falls back to
    /// the default sheet; a third line that is not an id leaves no last
    /// task.
    pub fn from_file_content(content: &str, default_sheet: &str) -> (r: State)
        requires
            default_sheet@.len() > 0,
        ensures
            r@ == state_of_file(content@, default_sheet@),
            r@.wf(),
    {
        let ghost c = content@;
        proof {
            assert(c.skip(0) =~= c);
        }
        let (l0, p1) = next_line(content, 0);
        let (l1, p2) = next_line(content, p1);
        let (l2, _p3) = next_line(content, p2);
        proof {
            let s1 = c.skip(p1 as int);
            let s2 = c.skip(p2 as int);
            assert(nth_line(c, 1) == nth_line(s1, 0));
            assert(nth_line(c, 2) == nth_line(s1, 1));
            assert(nth_line(s1, 1) == nth_line(s2, 0));
        }
        let current_sheet = match l0 {
            Some(l) => if l.as_str().unicode_len() > 0 {
                l
            } else {
                default_sheet.to_owned()
            },
            None => default_sheet.to_owned(),
        };
        let last_sheet = match l1 {
            Some(l) => if l.as_str().unicode_len() > 0 {
                l
            } else {
                default_sheet.to_owned()
            },
            None => default_sheet.to_owned(),
        };
        let last_task = match l2 {
            Some(l) => {
                let n = l.as_str().unicode_len();
                proof {
                    assert(l@.subrange(0, n as int) =~= l@);
                }
                match read_number(l.as_str(), 0, n, usize::MAX as u64) {
                    Some(v) => Some(v as usize),
                    None => None,
                }
            },
            None => None,
        };
        State { current_sheet, last_sheet, last_task }
    }

    /// The pointer file for this state.
    pub fn to_file_content(&self) -> (r: String)
        ensures
            r@ == file_of_state(self@),
    {
        proof {
            reveal_strlit("\n");
        }
        let mut out = self.current_sheet.clone();
        out.append("\n");
        out.append(self.last_sheet.as_str());
        out.append("\n");
        match self.last_task {
            Some(id) => push_digits(&mut out, id as u128),
            None => {},
        }
        proof {
            assert(out@ =~= file_of_state(self@));
        }
        out
    }
}


proof fn lemma_digits_read_back(n: nat)
    ensures
        all_digits(digits_of(n)),
        digits_value(digits_of(n)) == n,
        forall|i: int| 0 <= i < digits_of(n).len() ==> (#[trigger] digits_of(n)[i]) != '\n',
    decreases n,
{
    let d = digit_char(n % 10);
    assert(d as u32 - '0' as u32 == n % 10);
    if n >= 10 {
        lemma_digits_read_back(n / 10);
        let s = digits_of(n);
        assert(s.drop_last() =~= digits_of(n / 10));
        assert(s.last() == d);
        lemma_fundamental_div_mod(n as int, 10);
        assert(digits_value(s) == digits_value(s.drop_last()) * 10 + (s.last() as u32 - '0' as u32) as nat);
        assert(digits_value(s) == (n / 10) * 10 + n % 10);
        assert forall|i: int| 0 <= i < s.len() implies is_digit(#[trigger] s[i]) && s[i] != '\n' by {
            if i < s.len() - 1 {
                assert(s[i] == digits_of(n / 10)[i]);
            }
        }
    } else {
        assert(digits_of(n).drop_last() =~= Seq::<char>::empty());
        assert(digits_of(n).last() == d);
        assert(digits_value(digits_of(n)) == digits_value(digits_of(n).drop_last()) * 10 + (d as u32 - '0' as u32) as nat);
    }
}

/// Whether a sheet name survives a line of the pointer file: no line break
/// in it and no carriage return at its end.
pub open spec fn fits_on_a_line(name: Seq<char>) -> bool {
    &&& forall|i: int| 0 <= i < name.len() ==> name[i] != '\n'
    &&& name.len() > 0 ==> name.last() != '\r'
}

proof fn lemma_line_then_rest(name: Seq<char>, rest: Seq<char>)
    requires
        name.len() > 0,
        fits_on_a_line(name),
    ensures
        first_line(name + seq!['\n'] + rest) == name,
        after_first_line(name + seq!['\n'] + rest) == rest,
{
    let c = name + seq!['\n'] + rest;
    lemma_newline_index(c, name.len() as int);
    assert(c.take(name.len() as int) =~= name);
    assert(c.skip(name.len() as int + 1) =~= rest);
}

/// Reading back the pointer file written for a state gives that state,
/// when its sheet names fit on a line.
pub proof fn lemma_file_round_trip(s: StateView, default_sheet: Seq<char>)
    requires
        s.wf(),
        fits_on_a_line(s.current_sheet),
        fits_on_a_line(s.last_sheet),
    ensures
        state_of_file(file_of_state(s), default_sheet) == s,
{
    let tail = match s.last_task {
        Some(id) => digits_of(id as nat),
        None => Seq::<char>::empty(),
    };
    let rest = s.last_sheet + seq!['\n'] + tail;
    let c = file_of_state(s);
    assert(c =~= s.current_sheet + seq!['\n'] + rest);
    lemma_line_then_rest(s.current_sheet, rest);
    lemma_line_then_rest(s.last_sheet, tail);
    assert(nth_line(c, 0) == Some(s.current_sheet));
    assert(nth_line(c, 1) == nth_line(rest, 0));
    assert(nth_line(c, 2) == nth_line(rest, 1));
    assert(nth_line(rest, 1) == nth_line(tail, 0));
    match s.last_task {
        Some(id) => {
            lemma_digits_read_back(id as nat);
            lemma_newline_index(tail, tail.len() as int);
            assert(tail.take(tail.len() as int) =~= tail);
        },
        None => {},
    }
}

} // verus!

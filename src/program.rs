//! A corrupted program: the commands recovered from it, and what running
//! them adds up to.
use vstd::prelude::*;
use vstd::string::StrSliceExecFns;
use crate::text::{chars_of, decimal_value, parse_u64, split_on, split_pieces};

verus! {

/// Whether the texts `a` and `b` are the same.
pub fn same_text(a: &str, b: &str) -> (r: bool)
    ensures
        r == (a@ == b@),
{
    let n = a.unicode_len();
    if n != b.unicode_len() {
        return false;
    }
    let mut i: usize = 0;
    while i < n
        invariant
            i <= n,
            n == a@.len(),
            n == b@.len(),
            a@.subrange(0, i as int) == b@.subrange(0, i as int),
        decreases n - i,
    {
        if a.get_char(i) != b.get_char(i) {
            return false;
        }
        proof {
            assert(a@.subrange(0, i + 1) =~= a@.subrange(0, i as int).push(a@[i as int]));
            assert(b@.subrange(0, i + 1) =~= b@.subrange(0, i as int).push(b@[i as int]));
        }
        i = i + 1;
    }
    proof {
        assert(a@ =~= a@.subrange(0, n as int));
        assert(b@ =~= b@.subrange(0, n as int));
    }
    true
}

/// One command: its name and its numeric parameters.
#[derive(Clone, Debug)]
pub struct Command {
    pub command: String,
    pub parameters: Vec<u64>,
}

/// What running `c` yields: the product of the first two parameters of a
/// `mul`, and nothing for anything else.
pub open spec fn command_value(c: Command) -> nat {
    if c.command@ == "mul"@ && c.parameters@.len() >= 2 {
        (c.parameters@[0] * c.parameters@[1]) as nat
    } else {
        0
    }
}

/// `v` if it fits in `u64`.
pub open spec fn fits(v: nat) -> Option<u64> {
    if v <= u64::MAX {
        Some(v as u64)
    } else {
        None
    }
}

/// The sum of the values of all commands.
pub open spec fn total_value(commands: Seq<Command>) -> nat
    decreases commands.len(),
{
    if commands.len() == 0 {
        0
    } else {
        total_value(commands.drop_last()) + command_value(commands.last())
    }
}

/// Whether commands are enabled after `commands` have run: `don't` disables,
/// `do` enables, and they start enabled.
pub open spec fn enabled_after(commands: Seq<Command>) -> bool
    decreases commands.len(),
{
    if commands.len() == 0 {
        true
    } else if commands.last().command@ == "don't"@ {
        false
    } else if commands.last().command@ == "do"@ {
        true
    } else {
        enabled_after(commands.drop_last())
    }
}

/// Whether `c` switches commands on or off.
pub open spec fn is_switch(c: Command) -> bool {
    c.command@ == "don't"@ || c.command@ == "do"@
}

/// The sum of the values of the commands that run while enabled.
pub open spec fn enabled_value(commands: Seq<Command>) -> nat
    decreases commands.len(),
{
    if commands.len() == 0 {
        0
    } else {
        enabled_value(commands.drop_last()) + if !is_switch(commands.last()) && enabled_after(
            commands.drop_last(),
        ) {
            command_value(commands.last())
        } else {
            0
        }
    }
}

proof fn lemma_total_grows(commands: Seq<Command>, i: int, j: int)
    requires
        0 <= i <= j <= commands.len(),
    ensures
        total_value(commands.subrange(0, i)) <= total_value(commands.subrange(0, j)),
    decreases j - i,
{
    if i < j {
        lemma_total_grows(commands, i, j - 1);
        assert(commands.subrange(0, j).drop_last() =~= commands.subrange(0, j - 1));
    }
}

proof fn lemma_enabled_grows(commands: Seq<Command>, i: int, j: int)
    requires
        0 <= i <= j <= commands.len(),
    ensures
        enabled_value(commands.subrange(0, i)) <= enabled_value(commands.subrange(0, j)),
    decreases j - i,
{
    if i < j {
        lemma_enabled_grows(commands, i, j - 1);
        assert(commands.subrange(0, j).drop_last() =~= commands.subrange(0, j - 1));
    }
}

impl Command {
    /// The product of the first two parameters of a `mul`; zero for any
    /// other command or a `mul` with fewer than two parameters.
    /// `None` when the product does not fit in `u64`.
    pub fn run(&self) -> (r: Option<u64>)
        ensures
            r == fits(command_value(*self)),
    {
        if !same_text(self.command.as_str(), "mul") || self.parameters.len() < 2 {
            return Some(0);
        }
        self.parameters[0].checked_mul(self.parameters[1])
    }
}

/// The commands of a program, in order.
#[derive(Clone, Debug)]
pub struct Program(pub Vec<Command>);

impl Program {
    /// The sum of the values of all commands, `do` and `don't` ignored;
    /// `None` when it does not fit in `u64`.
    pub fn do_all_multiplications(&self) -> (r: Option<u64>)
        ensures
            r == fits(total_value(self.0@)),
    {
        let n = self.0.len();
        let mut sum: u64 = 0;
        let mut i: usize = 0;
        while i < n
            invariant
                i <= n,
                n == self.0@.len(),
                sum == total_value(self.0@.subrange(0, i as int)),
            decreases n - i,
        {
            proof {
                assert(self.0@.subrange(0, i + 1).drop_last() =~= self.0@.subrange(0, i as int));
                lemma_total_grows(self.0@, i + 1, n as int);
                assert(self.0@.subrange(0, n as int) =~= self.0@);
            }
            let value = match self.0[i].run() {
                Some(v) => v,
                None => return None,
            };
            sum = match sum.checked_add(value) {
                Some(s) => s,
                None => return None,
            };
            i = i + 1;
        }
        proof {
            assert(self.0@.subrange(0, n as int) =~= self.0@);
        }
        Some(sum)
    }

    /// The sum of the values of the commands that run while enabled: `don't`
    /// disables the commands after it and `do` enables them again. `None`
    /// when it does not fit in `u64`.
    pub fn run(&self) -> (r: Option<u64>)
        ensures
            r == fits(enabled_value(self.0@)),
    {
        let n = self.0.len();
        let mut enabled = true;
        let mut sum: u64 = 0;
        let mut i: usize = 0;
        while i < n
            invariant
                i <= n,
                n == self.0@.len(),
                sum == enabled_value(self.0@.subrange(0, i as int)),
                enabled == enabled_after(self.0@.subrange(0, i as int)),
            decreases n - i,
        {
            let command = &self.0[i];
            proof {
                assert(self.0@.subrange(0, i + 1).drop_last() =~= self.0@.subrange(0, i as int));
                lemma_enabled_grows(self.0@, i + 1, n as int);
                assert(self.0@.subrange(0, n as int) =~= self.0@);
            }
            if same_text(command.command.as_str(), "don't") {
                enabled = false;
            } else if same_text(command.command.as_str(), "do") {
                enabled = true;
            } else if enabled {
                let value = match command.run() {
                    Some(v) => v,
                    None => return None,
                };
                sum = match sum.checked_add(value) {
                    Some(s) => s,
                    None => return None,
                };
            }
            i = i + 1;
        }
        proof {
            assert(self.0@.subrange(0, n as int) =~= self.0@);
        }
        Some(sum)
    }
}

#[verifier::external_type_specification]
#[verifier::external_body]
pub struct ExRegex(regex::Regex);

/// Relies on `regex::Regex::new`: compiles `pattern`, and fails when the
/// pattern is invalid or too large.
#[verifier::external_body]
fn compile_pattern(pattern: &str) -> (r: Option<regex::Regex>) {
    regex::Regex::new(pattern).ok()
}

/// Relies on `regex::Regex::captures_iter` and `regex::Captures::iter`: the
/// successive non-overlapping matches of `re` in `hay`, each given as its
/// capture groups in order, with `None` for a group that took no part.
#[verifier::external_body]
fn capture_groups(re: &regex::Regex, hay: &str) -> (r: Vec<Vec<Option<String>>>) {
    re.captures_iter(hay).map(|c| c.iter().map(|g| g.map(|m| m.as_str().to_string())).collect()).collect()
}

/// The text of group `i` of a match; empty when the group is missing.
pub open spec fn group_text(groups: Seq<Option<String>>, i: int) -> Seq<char> {
    if 0 <= i < groups.len() && groups[i] is Some {
        groups[i]->Some_0@
    } else {
        Seq::empty()
    }
}

/// A parameter's value: its decimal reading, or zero when it is not a
/// number that fits in `u64`.
pub open spec fn number_or_zero(p: Seq<char>) -> u64 {
    match decimal_value(p) {
        Some(v) => v as u64,
        None => 0,
    }
}

/// Whether `c` is the command that a match with `groups` describes: group 1
/// names it and group 2 lists its parameters, separated by commas.
pub open spec fn command_matches(c: Command, groups: Seq<Option<String>>) -> bool {
    &&& c.command@ == group_text(groups, 1)
    &&& c.parameters@ == split_pieces(group_text(groups, 2), ',').map_values(
        |p: Seq<char>| number_or_zero(p),
    )
}

/// Whether `commands` are, in order, the commands that the matches with
/// capture groups `caps` describe.
pub open spec fn described_by(commands: Seq<Command>, caps: Seq<Vec<Option<String>>>) -> bool {
    &&& caps.len() == commands.len()
    &&& forall|i: int| 0 <= i < caps.len() ==> command_matches(commands[i], #[trigger] caps[i]@)
}

/// The pattern of the commands in a corrupted program: `do()`, `don't()`,
/// or `mul(..)`, each with comma-separated digits between the parentheses.
pub const COMMAND_PATTERN: &'static str = "(do|don't|mul)\\(((?:\\d+,?)*)\\)";

impl Command {
    /// The command that a match with capture groups `groups` describes.
    pub fn from_groups(groups: &Vec<Option<String>>) -> (r: Command)
        ensures
            command_matches(r, groups@),
    {
        let command = if groups.len() > 1 {
            match &groups[1] {
                Some(name) => name.clone(),
                None => String::new(),
            }
        } else {
            String::new()
        };
        let list: Vec<char> = if groups.len() > 2 {
            match &groups[2] {
                Some(text) => chars_of(text.as_str()),
                None => Vec::new(),
            }
        } else {
            Vec::new()
        };
        let pieces = split_on(list.as_slice(), ',');
        let ghost views = pieces@.map_values(|p: Vec<char>| p@);
        let mut parameters: Vec<u64> = Vec::new();
        let mut i: usize = 0;
        while i < pieces.len()
            invariant
                i <= pieces@.len(),
                views == pieces@.map_values(|p: Vec<char>| p@),
                parameters@ == views.subrange(0, i as int).map_values(
                    |p: Seq<char>| number_or_zero(p),
                ),
            decreases pieces.len() - i,
        {
            let value = match parse_u64(pieces[i].as_slice()) {
                Some(v) => v,
                None => 0,
            };
            proof {
                assert(views[i as int] == pieces@[i as int]@);
            }
            parameters.push(value);
            i = i + 1;
            proof {
                assert(parameters@ =~= views.subrange(0, i as int).map_values(
                    |p: Seq<char>| number_or_zero(p),
                ));
            }
        }
        proof {
            assert(views.subrange(0, pieces@.len() as int) =~= views);
        }
        Command { command, parameters }
    }
}

impl Program {
    /// The program whose commands the matches `matches` describe, in order.
    pub fn from_captures(matches: &Vec<Vec<Option<String>>>) -> (r: Program)
        ensures
            r.0@.len() == matches@.len(),
            forall|i: int| 0 <= i < matches@.len() ==> command_matches(r.0@[i], #[trigger] matches@[i]@),
    {
        let mut commands: Vec<Command> = Vec::new();
        let mut i: usize = 0;
        while i < matches.len()
            invariant
                i <= matches@.len(),
                commands@.len() == i,
                forall|j: int| 0 <= j < i ==> command_matches(commands@[j], #[trigger] matches@[j]@),
            decreases matches.len() - i,
        {
            commands.push(Command::from_groups(&matches[i]));
            i = i + 1;
        }
        Program(commands)
    }

    /// Recovers the commands of corrupted program text: each match of
    /// `COMMAND_PATTERN`, in order. `None` when the pattern cannot be
    /// compiled.
    pub fn parse(text: &str) -> (r: Option<Program>)
        ensures
            r is Some ==> exists|caps: Seq<Vec<Option<String>>>| #[trigger]
                described_by(r->Some_0.0@, caps),
    {
        match compile_pattern(COMMAND_PATTERN) {
            Some(re) => {
                let matches = capture_groups(&re, text);
                let program = Self::from_captures(&matches);
                let ghost caps = matches@;
                assert(described_by(program.0@, caps));
                let r = Some(program);
                assert(described_by(r->Some_0.0@, caps));
                r
            },
            None => None,
        }
    }
}

} // verus!

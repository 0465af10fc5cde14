//! From command-line arguments to a command.
use vstd::prelude::*;

use crate::calc::ohm::{OhmGiven, OhmInput};
use crate::calc::power::{PowerGiven, PowerInput};
use crate::calc::resistance::values_of;
use crate::error::{EecalcError, ErrorView};
use crate::quantity::{Frac, Quantity};
use crate::text::{chars_of, str_eq};
use crate::units::{parse_value, value_outcome};

verus! {

#[derive(Debug, Clone, Copy, PartialEq, Eq, Structural)]
pub enum CommandName {
    Ohm,
    Power,
    Series,
    Parallel,
    Divider,
    Rc,
}

#[derive(Debug, Clone, PartialEq, Eq)]
pub enum Command {
    Help,
    CommandHelp(CommandName),
    Ohm(OhmGiven),
    Power(PowerGiven),
    Series(Vec<Quantity>),
    Parallel(Vec<Quantity>),
    Divider { vin: Quantity, r1: Quantity, r2: Quantity },
    Rc { resistance: Quantity, capacitance: Quantity },
}

/// A command with its values as mathematical values.
pub enum CommandView {
    Help,
    CommandHelp(CommandName),
    Ohm(OhmInput),
    Power(PowerInput),
    Series(Seq<Frac>),
    Parallel(Seq<Frac>),
    Divider { vin: Frac, r1: Frac, r2: Frac },
    Rc { resistance: Frac, capacitance: Frac },
}

impl View for Command {
    type V = CommandView;

    open spec fn view(&self) -> CommandView {
        match self {
            Command::Help => CommandView::Help,
            Command::CommandHelp(name) => CommandView::CommandHelp(*name),
            Command::Ohm(given) => CommandView::Ohm(given@),
            Command::Power(given) => CommandView::Power(given@),
            Command::Series(values) => CommandView::Series(values_of(values@)),
            Command::Parallel(values) => CommandView::Parallel(values_of(values@)),
            Command::Divider { vin, r1, r2 } => CommandView::Divider {
                vin: vin@,
                r1: r1@,
                r2: r2@,
            },
            Command::Rc { resistance, capacitance } => CommandView::Rc {
                resistance: resistance@,
                capacitance: capacitance@,
            },
        }
    }
}

pub const GLOBAL_HELP: &'static str = "\
eecalc - electronics bench calculator

Usage:
  eecalc <command> [arguments]
  eecalc help | --help
  eecalc <command> --help

Commands:
  ohm       Given any two of voltage, current, resistance, compute the third
  power     Given any two of voltage, current, resistance, compute power
  series    Equivalent resistance of two or more series resistors
  parallel  Equivalent resistance of two or more parallel resistors
  divider   Output voltage of a two-resistor divider
  rc        Time constant and cutoff frequency of an RC circuit

Values:
  A decimal number with an optional SI prefix from p n u m k M.
  Examples: 470, 4.7k, 100n, 2.2M
  No space between number and prefix. u means micro.

Exit codes:
  0  success
  1  calculation error
  2  usage or parse error";

pub const VALUE_NOTE: &'static str =
    "Values: decimal plus optional prefix p n u m k M (u = micro). Examples: 470, 4.7k, 100n.";

pub const OHM_HELP: &'static str = "\
Usage: eecalc ohm --voltage <V> --current <I> --resistance <R>
  Give exactly two of --voltage/-v, --current/-i, --resistance/-r.";

pub const POWER_HELP: &'static str = "\
Usage: eecalc power --voltage <V> --current <I> --resistance <R>
  Give exactly two of --voltage/-v, --current/-i, --resistance/-r.
  Prints power P.";

pub const SERIES_HELP: &'static str = "\
Usage: eecalc series <R1> <R2> [R3 ...]
  Two or more resistances. Prints equivalent R.";

pub const PARALLEL_HELP: &'static str = "\
Usage: eecalc parallel <R1> <R2> [R3 ...]
  Two or more resistances. Prints equivalent R.";

pub const DIVIDER_HELP: &'static str = "\
Usage: eecalc divider --vin <V> --r1 <R> --r2 <R>
  All three flags required. Prints Vout.";

pub const RC_HELP: &'static str = "\
Usage: eecalc rc --resistance <R> --capacitance <C>
  Both --resistance/-r and --capacitance/-c required. Prints tau and fc.";

/// The usage text of one command.
pub open spec fn usage_text(name: CommandName) -> Seq<char> {
    match name {
        CommandName::Ohm => OHM_HELP@,
        CommandName::Power => POWER_HELP@,
        CommandName::Series => SERIES_HELP@,
        CommandName::Parallel => PARALLEL_HELP@,
        CommandName::Divider => DIVIDER_HELP@,
        CommandName::Rc => RC_HELP@,
    }
}

/// The help of one command: its usage, a blank line, then the note on values.
pub open spec fn command_help_text(name: CommandName) -> Seq<char> {
    usage_text(name) + "\n\n"@ + VALUE_NOTE@
}

pub fn command_help(name: CommandName) -> (r: String)
    ensures
        r@ == command_help_text(name),
{
    let usage = match name {
        CommandName::Ohm => OHM_HELP,
        CommandName::Power => POWER_HELP,
        CommandName::Series => SERIES_HELP,
        CommandName::Parallel => PARALLEL_HELP,
        CommandName::Divider => DIVIDER_HELP,
        CommandName::Rc => RC_HELP,
    };
    let mut text = String::from_str(usage);
    text.append("\n\n");
    text.append(VALUE_NOTE);
    text
}

/// The texts of the arguments.
pub open spec fn texts(args: Seq<String>) -> Seq<Seq<char>> {
    args.map_values(|a: String| a@)
}

pub open spec fn is_ascii_alpha(c: char) -> bool {
    ('a' <= c && c <= 'z') || ('A' <= c && c <= 'Z')
}

/// Whether a token is a flag rather than a value: `--` and a name, or `-` and a letter.
pub open spec fn is_flag_text(t: Seq<char>) -> bool {
    if t.len() >= 2 && t[0] == '-' && t[1] == '-' {
        t.len() > 2
    } else if t.len() >= 1 && t[0] == '-' {
        t.len() >= 2 && is_ascii_alpha(t[1])
    } else {
        false
    }
}

/// The command that a name selects.
pub open spec fn command_named(t: Seq<char>) -> Option<CommandName> {
    if t == "ohm"@ {
        Some(CommandName::Ohm)
    } else if t == "power"@ {
        Some(CommandName::Power)
    } else if t == "series"@ {
        Some(CommandName::Series)
    } else if t == "parallel"@ {
        Some(CommandName::Parallel)
    } else if t == "divider"@ {
        Some(CommandName::Divider)
    } else if t == "rc"@ {
        Some(CommandName::Rc)
    } else {
        None
    }
}

/// The families of flags that take a value.
#[derive(Clone, Copy)]
pub enum FlagSet {
    /// `--voltage/-v`, `--current/-i`, `--resistance/-r`.
    Quantities,
    /// `--vin`, `--r1`, `--r2`.
    Divider,
    /// `--resistance/-r`, `--capacitance/-c`.
    Rc,
}

pub open spec fn slot_count(set: FlagSet) -> nat {
    match set {
        FlagSet::Quantities => 3,
        FlagSet::Divider => 3,
        FlagSet::Rc => 2,
    }
}

/// Which value a flag sets, if it belongs to the family.
pub open spec fn flag_slot(set: FlagSet, t: Seq<char>) -> Option<int> {
    match set {
        FlagSet::Quantities => if t == "--voltage"@ || t == "-v"@ {
            Some(0)
        } else if t == "--current"@ || t == "-i"@ {
            Some(1)
        } else if t == "--resistance"@ || t == "-r"@ {
            Some(2)
        } else {
            None
        },
        FlagSet::Divider => if t == "--vin"@ {
            Some(0)
        } else if t == "--r1"@ {
            Some(1)
        } else if t == "--r2"@ {
            Some(2)
        } else {
            None
        },
        FlagSet::Rc => if t == "--resistance"@ || t == "-r"@ {
            Some(0)
        } else if t == "--capacitance"@ || t == "-c"@ {
            Some(1)
        } else {
            None
        },
    }
}

/// Whether the flag at `idx` lacks its value.
pub open spec fn missing_value(ts: Seq<Seq<char>>, idx: int) -> bool {
    idx + 1 >= ts.len() || is_flag_text(ts[idx + 1])
}

/// Setting a value that may already be set: a second setting is refused.
pub open spec fn assign_value(slot: Option<Frac>, flag: Seq<char>, raw: Seq<char>) -> Result<
    Frac,
    ErrorView,
> {
    if slot is Some {
        Err(ErrorView::UnexpectedArgument(flag))
    } else {
        value_outcome(raw)
    }
}

pub open spec fn opt_value(o: Option<Quantity>) -> Option<Frac> {
    match o {
        Some(q) => Some(q@),
        None => None,
    }
}

pub open spec fn slot_values(slots: Seq<Option<Quantity>>) -> Seq<Option<Frac>> {
    slots.map_values(|o: Option<Quantity>| opt_value(o))
}

/// The flags from `idx` on, read into `slots`.
pub open spec fn scan_flags(set: FlagSet, ts: Seq<Seq<char>>, idx: int, slots: Seq<Option<Frac>>) -> Result<
    Seq<Option<Frac>>,
    ErrorView,
>
    decreases ts.len() - idx,
{
    if idx < 0 || idx >= ts.len() {
        Ok(slots)
    } else {
        match flag_slot(set, ts[idx]) {
            None => Err(ErrorView::UnexpectedArgument(ts[idx])),
            Some(k) => if missing_value(ts, idx) {
                Err(ErrorView::MissingArgument("missing value for "@ + ts[idx]))
            } else {
                match assign_value(slots[k], ts[idx], ts[idx + 1]) {
                    Err(e) => Err(e),
                    Ok(x) => scan_flags(set, ts, idx + 2, slots.update(k, Some(x))),
                }
            },
        }
    }
}

/// The values that a list of flags sets, one slot per flag.
pub open spec fn flags_of(set: FlagSet, ts: Seq<Seq<char>>) -> Result<Seq<Option<Frac>>, ErrorView> {
    scan_flags(set, ts, 0, Seq::new(slot_count(set), |i: int| None))
}

/// Whether `t` is a flag rather than a value.
fn is_flag(token: &str) -> (r: bool)
    ensures
        r == is_flag_text(token@),
{
    let t = chars_of(token);
    if t.len() >= 2 && t[0] == '-' && t[1] == '-' {
        return t.len() > 2;
    }
    if t.len() >= 1 && t[0] == '-' {
        return t.len() >= 2 && (('a' <= t[1] && t[1] <= 'z') || ('A' <= t[1] && t[1] <= 'Z'));
    }
    false
}

fn parse_command_name(name: &str) -> (r: Result<CommandName, EecalcError>)
    ensures
        match r {
            Ok(n) => command_named(name@) == Some(n),
            Err(e) => command_named(name@) is None && e@ == ErrorView::UnknownCommand(name@),
        },
{
    if str_eq(name, "ohm") {
        Ok(CommandName::Ohm)
    } else if str_eq(name, "power") {
        Ok(CommandName::Power)
    } else if str_eq(name, "series") {
        Ok(CommandName::Series)
    } else if str_eq(name, "parallel") {
        Ok(CommandName::Parallel)
    } else if str_eq(name, "divider") {
        Ok(CommandName::Divider)
    } else if str_eq(name, "rc") {
        Ok(CommandName::Rc)
    } else {
        Err(EecalcError::UnknownCommand(name.to_owned()))
    }
}

/// Which value a flag sets.
fn flag_slot_of(set: FlagSet, t: &str) -> (r: Option<usize>)
    ensures
        match r {
            Some(k) => flag_slot(set, t@) == Some(k as int) && k < slot_count(set),
            None => flag_slot(set, t@) is None,
        },
{
    match set {
        FlagSet::Quantities => if str_eq(t, "--voltage") || str_eq(t, "-v") {
            Some(0)
        } else if str_eq(t, "--current") || str_eq(t, "-i") {
            Some(1)
        } else if str_eq(t, "--resistance") || str_eq(t, "-r") {
            Some(2)
        } else {
            None
        },
        FlagSet::Divider => if str_eq(t, "--vin") {
            Some(0)
        } else if str_eq(t, "--r1") {
            Some(1)
        } else if str_eq(t, "--r2") {
            Some(2)
        } else {
            None
        },
        FlagSet::Rc => if str_eq(t, "--resistance") || str_eq(t, "-r") {
            Some(0)
        } else if str_eq(t, "--capacitance") || str_eq(t, "-c") {
            Some(1)
        } else {
            None
        },
    }
}

/// The value that follows the flag at `idx`; on success `idx` moves onto it.
fn next_value<'a>(tokens: &'a [String], idx: &mut usize) -> (r: Result<&'a str, EecalcError>)
    requires
        *old(idx) < tokens@.len(),
    ensures
        r is Err <==> missing_value(texts(tokens@), *old(idx) as int),
        r matches Err(e) ==> e@ == ErrorView::MissingArgument(
            "missing value for "@ + tokens@[*old(idx) as int]@,
        ),
        r matches Ok(v) ==> *final(idx) == *old(idx) + 1 && v@ == tokens@[*old(idx) + 1]@,
{
    let flag = tokens[*idx].as_str();
    let value_idx = *idx + 1;
    if value_idx >= tokens.len() || is_flag(tokens[value_idx].as_str()) {
        let mut message = String::from_str("missing value for ");
        message.append(flag);
        return Err(EecalcError::MissingArgument(message));
    }
    *idx = value_idx;
    Ok(tokens[value_idx].as_str())
}

/// Reads `raw` into slot `k`, which must not be set yet.
fn assign(slots: &mut Vec<Option<Quantity>>, k: usize, flag: &str, raw: &str) -> (r: Result<
    (),
    EecalcError,
>)
    requires
        k < old(slots)@.len(),
    ensures
        final(slots)@.len() == old(slots)@.len(),
        r is Ok <==> assign_value(opt_value(old(slots)@[k as int]), flag@, raw@) is Ok,
        r matches Err(e) ==> assign_value(opt_value(old(slots)@[k as int]), flag@, raw@) == Err::<
            Frac,
            ErrorView,
        >(e@),
        r is Ok ==> slot_values(final(slots)@) == slot_values(old(slots)@).update(
            k as int,
            Some(assign_value(opt_value(old(slots)@[k as int]), flag@, raw@)->Ok_0),
        ),
{
    if slots[k].is_some() {
        return Err(EecalcError::UnexpectedArgument(flag.to_owned()));
    }
    let value = parse_value(raw)?;
    let ghost before = slots@;
    slots.set(k, Some(value));
    assert(slot_values(slots@) =~= slot_values(before).update(k as int, Some(value@)));
    Ok(())
}

/// Reads the flags of one family into their slots.
fn parse_flags(args: &[String], set: FlagSet) -> (r: Result<Vec<Option<Quantity>>, EecalcError>)
    ensures
        match r {
            Ok(slots) => slots@.len() == slot_count(set) && flags_of(set, texts(args@)) == Ok::<
                Seq<Option<Frac>>,
                ErrorView,
            >(slot_values(slots@)),
            Err(e) => flags_of(set, texts(args@)) == Err::<Seq<Option<Frac>>, ErrorView>(e@),
        },
{
    let ghost ts = texts(args@);
    let count: usize = match set {
        FlagSet::Quantities => 3,
        FlagSet::Divider => 3,
        FlagSet::Rc => 2,
    };
    let mut slots: Vec<Option<Quantity>> = Vec::new();
    let mut j: usize = 0;
    while j < count
        invariant
            j <= count,
            slots@.len() == j,
            forall|i: int| 0 <= i < j ==> slots@[i] is None,
        decreases count - j,
    {
        slots.push(None);
        j += 1;
    }
    assert(slot_values(slots@) =~= Seq::new(slot_count(set), |i: int| None::<Frac>));
    let mut idx: usize = 0;
    while idx < args.len()
        invariant
            ts == texts(args@),
            slots@.len() == slot_count(set),
            idx <= args@.len(),
            flags_of(set, ts) == scan_flags(set, ts, idx as int, slot_values(slots@)),
        decreases args@.len() - idx,
    {
        let ghost at = idx as int;
        let tok = args[idx].as_str();
        assert(ts[at] == tok@);
        match flag_slot_of(set, tok) {
            None => {
                return Err(EecalcError::UnexpectedArgument(tok.to_owned()));
            },
            Some(k) => {
                let raw = next_value(args, &mut idx)?;
                assert(ts[at + 1] == raw@);
                assign(&mut slots, k, tok, raw)?;
            },
        }
        idx += 1;
    }
    Ok(slots)
}

/// The Ohm's-law input that the flags name: exactly two of the three quantities.
pub open spec fn ohm_input(s: Seq<Option<Frac>>) -> Result<OhmInput, ErrorView> {
    if s[0] is Some && s[1] is Some && s[2] is None {
        Ok(OhmInput::VoltageCurrent { voltage: s[0]->Some_0, current: s[1]->Some_0 })
    } else if s[0] is Some && s[1] is None && s[2] is Some {
        Ok(OhmInput::VoltageResistance { voltage: s[0]->Some_0, resistance: s[2]->Some_0 })
    } else if s[0] is None && s[1] is Some && s[2] is Some {
        Ok(OhmInput::CurrentResistance { current: s[1]->Some_0, resistance: s[2]->Some_0 })
    } else {
        Err(ErrorView::WrongArgumentCount { command: "ohm"@ })
    }
}

/// The power input that the flags name: exactly two of the three quantities.
pub open spec fn power_input(s: Seq<Option<Frac>>) -> Result<PowerInput, ErrorView> {
    if s[0] is Some && s[1] is Some && s[2] is None {
        Ok(PowerInput::VoltageCurrent { voltage: s[0]->Some_0, current: s[1]->Some_0 })
    } else if s[0] is Some && s[1] is None && s[2] is Some {
        Ok(PowerInput::VoltageResistance { voltage: s[0]->Some_0, resistance: s[2]->Some_0 })
    } else if s[0] is None && s[1] is Some && s[2] is Some {
        Ok(PowerInput::CurrentResistance { current: s[1]->Some_0, resistance: s[2]->Some_0 })
    } else {
        Err(ErrorView::WrongArgumentCount { command: "power"@ })
    }
}

/// The resistances from `idx` on, appended to `acc`.
pub open spec fn scan_resistors(ts: Seq<Seq<char>>, idx: int, acc: Seq<Frac>) -> Result<
    Seq<Frac>,
    ErrorView,
>
    decreases ts.len() - idx,
{
    if idx < 0 || idx >= ts.len() {
        Ok(acc)
    } else if is_flag_text(ts[idx]) {
        Err(ErrorView::UnexpectedArgument(ts[idx]))
    } else {
        match value_outcome(ts[idx]) {
            Err(e) => Err(e),
            Ok(f) => scan_resistors(ts, idx + 1, acc.push(f)),
        }
    }
}

/// Two or more positional resistances.
pub open spec fn resistors_of(ts: Seq<Seq<char>>, command: Seq<char>) -> Result<Seq<Frac>, ErrorView> {
    if ts.len() == 0 {
        Err(ErrorView::WrongArgumentCount { command })
    } else {
        match scan_resistors(ts, 0, Seq::empty()) {
            Err(e) => Err(e),
            Ok(values) => if values.len() < 2 {
                Err(ErrorView::WrongArgumentCount { command })
            } else {
                Ok(values)
            },
        }
    }
}

/// The divider command: all of `--vin`, `--r1` and `--r2`.
pub open spec fn divider_command(ts: Seq<Seq<char>>) -> Result<CommandView, ErrorView> {
    match flags_of(FlagSet::Divider, ts) {
        Err(e) => Err(e),
        Ok(s) => if s[0] is Some && s[1] is Some && s[2] is Some {
            Ok(CommandView::Divider { vin: s[0]->Some_0, r1: s[1]->Some_0, r2: s[2]->Some_0 })
        } else {
            Err(ErrorView::MissingArgument("divider requires --vin, --r1, and --r2"@))
        },
    }
}

/// The RC command: both `--resistance` and `--capacitance`.
pub open spec fn rc_command(ts: Seq<Seq<char>>) -> Result<CommandView, ErrorView> {
    match flags_of(FlagSet::Rc, ts) {
        Err(e) => Err(e),
        Ok(s) => if s[0] is Some && s[1] is Some {
            Ok(CommandView::Rc { resistance: s[0]->Some_0, capacitance: s[1]->Some_0 })
        } else {
            Err(ErrorView::MissingArgument("rc requires --resistance and --capacitance"@))
        },
    }
}

/// The command `name` with the arguments that follow it.
pub open spec fn command_of(name: CommandName, rest: Seq<Seq<char>>) -> Result<CommandView, ErrorView> {
    match name {
        CommandName::Ohm => match flags_of(FlagSet::Quantities, rest) {
            Err(e) => Err(e),
            Ok(s) => match ohm_input(s) {
                Err(e) => Err(e),
                Ok(given) => Ok(CommandView::Ohm(given)),
            },
        },
        CommandName::Power => match flags_of(FlagSet::Quantities, rest) {
            Err(e) => Err(e),
            Ok(s) => match power_input(s) {
                Err(e) => Err(e),
                Ok(given) => Ok(CommandView::Power(given)),
            },
        },
        CommandName::Series => match resistors_of(rest, "series"@) {
            Err(e) => Err(e),
            Ok(values) => Ok(CommandView::Series(values)),
        },
        CommandName::Parallel => match resistors_of(rest, "parallel"@) {
            Err(e) => Err(e),
            Ok(values) => Ok(CommandView::Parallel(values)),
        },
        CommandName::Divider => divider_command(rest),
        CommandName::Rc => rc_command(rest),
    }
}

/// What the arguments (the program name left out) ask for, or why they are refused.
pub open spec fn parse_args(ts: Seq<Seq<char>>) -> Result<CommandView, ErrorView> {
    if ts.len() == 0 {
        Err(ErrorView::MissingArgument("missing command"@))
    } else if ts[0] == "help"@ || ts[0] == "--help"@ {
        if ts.len() > 1 {
            Err(ErrorView::UnexpectedArgument(ts[1]))
        } else {
            Ok(CommandView::Help)
        }
    } else {
        match command_named(ts[0]) {
            None => Err(ErrorView::UnknownCommand(ts[0])),
            Some(name) => if ts.drop_first().contains("--help"@) {
                Ok(CommandView::CommandHelp(name))
            } else {
                command_of(name, ts.drop_first())
            },
        }
    }
}

/// Values of `--voltage`, `--current` and `--resistance`, each given at most once.
struct QuantityFlags {
    voltage: Option<Quantity>,
    current: Option<Quantity>,
    resistance: Option<Quantity>,
}

/// Removes the last slot and hands out its value.
fn pop_slot(slots: &mut Vec<Option<Quantity>>) -> (r: Option<Quantity>)
    requires
        old(slots)@.len() > 0,
    ensures
        final(slots)@ == old(slots)@.drop_last(),
        r == old(slots)@.last(),
{
    match slots.pop() {
        Some(slot) => slot,
        None => None,
    }
}

fn parse_vir(args: &[String]) -> (r: Result<QuantityFlags, EecalcError>)
    ensures
        match r {
            Ok(f) => flags_of(FlagSet::Quantities, texts(args@)) == Ok::<
                Seq<Option<Frac>>,
                ErrorView,
            >(seq![opt_value(f.voltage), opt_value(f.current), opt_value(f.resistance)]),
            Err(e) => flags_of(FlagSet::Quantities, texts(args@)) == Err::<
                Seq<Option<Frac>>,
                ErrorView,
            >(e@),
        },
{
    let mut slots = parse_flags(args, FlagSet::Quantities)?;
    let ghost all = slots@;
    let resistance = pop_slot(&mut slots);
    let current = pop_slot(&mut slots);
    let voltage = pop_slot(&mut slots);
    assert(slot_values(all) =~= seq![opt_value(voltage), opt_value(current), opt_value(resistance)]);
    Ok(QuantityFlags { voltage, current, resistance })
}

fn parse_ohm(args: &[String]) -> (r: Result<OhmGiven, EecalcError>)
    ensures
        match r {
            Ok(g) => command_of(CommandName::Ohm, texts(args@)) == Ok::<CommandView, ErrorView>(
                CommandView::Ohm(g@),
            ),
            Err(e) => command_of(CommandName::Ohm, texts(args@)) == Err::<CommandView, ErrorView>(
                e@,
            ),
        },
{
    let QuantityFlags { voltage, current, resistance } = parse_vir(args)?;
    match (voltage, current, resistance) {
        (Some(voltage), Some(current), None) => Ok(OhmGiven::VoltageCurrent { voltage, current }),
        (Some(voltage), None, Some(resistance)) => Ok(
            OhmGiven::VoltageResistance { voltage, resistance },
        ),
        (None, Some(current), Some(resistance)) => Ok(
            OhmGiven::CurrentResistance { current, resistance },
        ),
        _ => Err(EecalcError::WrongArgumentCount { command: "ohm" }),
    }
}

fn parse_power(args: &[String]) -> (r: Result<PowerGiven, EecalcError>)
    ensures
        match r {
            Ok(g) => command_of(CommandName::Power, texts(args@)) == Ok::<CommandView, ErrorView>(
                CommandView::Power(g@),
            ),
            Err(e) => command_of(CommandName::Power, texts(args@)) == Err::<
                CommandView,
                ErrorView,
            >(e@),
        },
{
    let QuantityFlags { voltage, current, resistance } = parse_vir(args)?;
    match (voltage, current, resistance) {
        (Some(voltage), Some(current), None) => Ok(PowerGiven::VoltageCurrent { voltage, current }),
        (Some(voltage), None, Some(resistance)) => Ok(
            PowerGiven::VoltageResistance { voltage, resistance },
        ),
        (None, Some(current), Some(resistance)) => Ok(
            PowerGiven::CurrentResistance { current, resistance },
        ),
        _ => Err(EecalcError::WrongArgumentCount { command: "power" }),
    }
}

fn parse_resistors(args: &[String], command: &'static str) -> (r: Result<Vec<Quantity>, EecalcError>)
    ensures
        match r {
            Ok(values) => resistors_of(texts(args@), command@) == Ok::<Seq<Frac>, ErrorView>(
                values_of(values@),
            ),
            Err(e) => resistors_of(texts(args@), command@) == Err::<Seq<Frac>, ErrorView>(e@),
        },
{
    let ghost ts = texts(args@);
    if args.len() == 0 {
        return Err(EecalcError::WrongArgumentCount { command });
    }
    let mut values: Vec<Quantity> = Vec::new();
    let mut i: usize = 0;
    assert(values_of(values@) =~= Seq::<Frac>::empty());
    while i < args.len()
        invariant
            ts == texts(args@),
            i <= args@.len(),
            values@.len() == i,
            scan_resistors(ts, 0, Seq::empty()) == scan_resistors(ts, i as int, values_of(values@)),
        decreases args@.len() - i,
    {
        let token = args[i].as_str();
        assert(ts[i as int] == token@);
        if is_flag(token) {
            return Err(EecalcError::UnexpectedArgument(token.to_owned()));
        }
        let value = parse_value(token)?;
        let ghost before = values@;
        values.push(value);
        assert(values_of(values@) =~= values_of(before).push(value@));
        i += 1;
    }
    if values.len() < 2 {
        return Err(EecalcError::WrongArgumentCount { command });
    }
    Ok(values)
}

fn parse_divider(args: &[String]) -> (r: Result<Command, EecalcError>)
    ensures
        match r {
            Ok(c) => divider_command(texts(args@)) == Ok::<CommandView, ErrorView>(c@),
            Err(e) => divider_command(texts(args@)) == Err::<CommandView, ErrorView>(e@),
        },
{
    let mut slots = parse_flags(args, FlagSet::Divider)?;
    let ghost all = slot_values(slots@);
    let r2 = pop_slot(&mut slots);
    let r1 = pop_slot(&mut slots);
    let vin = pop_slot(&mut slots);
    assert(all =~= seq![opt_value(vin), opt_value(r1), opt_value(r2)]);
    match (vin, r1, r2) {
        (Some(vin), Some(r1), Some(r2)) => Ok(Command::Divider { vin, r1, r2 }),
        _ => Err(
            EecalcError::MissingArgument(
                String::from_str("divider requires --vin, --r1, and --r2"),
            ),
        ),
    }
}

fn parse_rc(args: &[String]) -> (r: Result<Command, EecalcError>)
    ensures
        match r {
            Ok(c) => rc_command(texts(args@)) == Ok::<CommandView, ErrorView>(c@),
            Err(e) => rc_command(texts(args@)) == Err::<CommandView, ErrorView>(e@),
        },
{
    let mut slots = parse_flags(args, FlagSet::Rc)?;
    let ghost all = slot_values(slots@);
    let capacitance = pop_slot(&mut slots);
    let resistance = pop_slot(&mut slots);
    assert(all =~= seq![opt_value(resistance), opt_value(capacitance)]);
    match (resistance, capacitance) {
        (Some(resistance), Some(capacitance)) => Ok(Command::Rc { resistance, capacitance }),
        _ => Err(
            EecalcError::MissingArgument(
                String::from_str("rc requires --resistance and --capacitance"),
            ),
        ),
    }
}

/// Parses the arguments (the program name left out) into a command.
pub fn parse(args: &[String]) -> (r: Result<Command, EecalcError>)
    ensures
        match r {
            Ok(c) => parse_args(texts(args@)) == Ok::<CommandView, ErrorView>(c@),
            Err(e) => parse_args(texts(args@)) == Err::<CommandView, ErrorView>(e@),
        },
{
    let ghost ts = texts(args@);
    if args.len() == 0 {
        return Err(EecalcError::MissingArgument(String::from_str("missing command")));
    }
    let first = args[0].as_str();
    assert(ts[0] == first@);
    if str_eq(first, "help") || str_eq(first, "--help") {
        if args.len() > 1 {
            assert(ts[1] == args@[1]@);
            return Err(EecalcError::UnexpectedArgument(args[1].clone()));
        }
        return Ok(Command::Help);
    }
    let name = parse_command_name(first)?;
    let rest = vstd::slice::slice_subrange(args, 1, args.len());
    assert(texts(rest@) =~= ts.drop_first());
    let mut i: usize = 0;
    while i < rest.len()
        invariant
            ts == texts(args@),
            ts.len() >= 1,
            texts(rest@) == ts.drop_first(),
            command_named(ts[0]) == Some(name),
            !(ts[0] == "help"@ || ts[0] == "--help"@),
            i <= rest@.len(),
            forall|j: int| 0 <= j < i ==> texts(rest@)[j] != "--help"@,
        decreases rest@.len() - i,
    {
        if str_eq(rest[i].as_str(), "--help") {
            assert(texts(rest@)[i as int] == "--help"@);
            assert(ts.drop_first()[i as int] == "--help"@);
            assert(ts.drop_first().contains("--help"@));
            return Ok(Command::CommandHelp(name));
        }
        i += 1;
    }
    assert(!texts(rest@).contains("--help"@));
    match name {
        CommandName::Ohm => Ok(Command::Ohm(parse_ohm(rest)?)),
        CommandName::Power => Ok(Command::Power(parse_power(rest)?)),
        CommandName::Series => Ok(Command::Series(parse_resistors(rest, "series")?)),
        CommandName::Parallel => Ok(Command::Parallel(parse_resistors(rest, "parallel")?)),
        CommandName::Divider => parse_divider(rest),
        CommandName::Rc => parse_rc(rest),
    }
}

/// Whether the error is about the command line rather than a calculation.
pub open spec fn is_usage_error(e: ErrorView) -> bool {
    !(e is NonPositiveValue || e is DivisionByZero)
}

proof fn lemma_scan_flags_usage(set: FlagSet, ts: Seq<Seq<char>>, idx: int, slots: Seq<Option<Frac>>)
    ensures
        scan_flags(set, ts, idx, slots) matches Err(e) ==> is_usage_error(e),
    decreases ts.len() - idx,
{
    if 0 <= idx < ts.len() {
        if let Some(k) = flag_slot(set, ts[idx]) {
            if !missing_value(ts, idx) {
                if let Ok(x) = assign_value(slots[k], ts[idx], ts[idx + 1]) {
                    lemma_scan_flags_usage(set, ts, idx + 2, slots.update(k, Some(x)));
                }
            }
        }
    }
}

proof fn lemma_scan_resistors_usage(ts: Seq<Seq<char>>, idx: int, acc: Seq<Frac>)
    ensures
        scan_resistors(ts, idx, acc) matches Err(e) ==> is_usage_error(e),
    decreases ts.len() - idx,
{
    if 0 <= idx < ts.len() && !is_flag_text(ts[idx]) {
        if let Ok(f) = value_outcome(ts[idx]) {
            lemma_scan_resistors_usage(ts, idx + 1, acc.push(f));
        }
    }
}

/// Unknown commands, unknown or repeated flags, missing values and malformed numbers are
/// all usage errors: reading the command line never fails as a calculation does.
pub proof fn lemma_parse_errors_are_usage_errors(ts: Seq<Seq<char>>)
    ensures
        parse_args(ts) matches Err(e) ==> is_usage_error(e),
{
    if ts.len() > 0 {
        let rest = ts.drop_first();
        lemma_scan_flags_usage(FlagSet::Quantities, rest, 0, Seq::new(3, |i: int| None));
        lemma_scan_flags_usage(FlagSet::Divider, rest, 0, Seq::new(3, |i: int| None));
        lemma_scan_flags_usage(FlagSet::Rc, rest, 0, Seq::new(2, |i: int| None));
        lemma_scan_resistors_usage(rest, 0, Seq::empty());
    }
}

/// `series` and `parallel` only ever go ahead with two values or more.
pub proof fn lemma_resistor_lists_have_two(ts: Seq<Seq<char>>)
    ensures
        parse_args(ts) matches Ok(CommandView::Series(values)) ==> values.len() >= 2,
        parse_args(ts) matches Ok(CommandView::Parallel(values)) ==> values.len() >= 2,
{
}

/// Flags are read by name, not by place: two flags that set different values give the same
/// values in either order, each flag's value being the number its text reads as and the
/// others left unset; a flag given a second time, under either of its names, is refused.
pub proof fn lemma_flags_any_order(
    set: FlagSet,
    f1: Seq<char>,
    v1: Seq<char>,
    f2: Seq<char>,
    v2: Seq<char>,
    a: Frac,
    b: Frac,
)
    requires
        flag_slot(set, f1) is Some,
        flag_slot(set, f2) is Some,
        !is_flag_text(v1),
        !is_flag_text(v2),
        value_outcome(v1) == Ok::<Frac, ErrorView>(a),
        value_outcome(v2) == Ok::<Frac, ErrorView>(b),
    ensures
        ({
            let k1 = flag_slot(set, f1)->0;
            let k2 = flag_slot(set, f2)->0;
            let forward = flags_of(set, seq![f1, v1, f2, v2]);
            &&& k1 != k2 ==> forward == flags_of(set, seq![f2, v2, f1, v1])
            &&& k1 != k2 ==> (forward matches Ok(s) && s.len() == slot_count(set) && s[k1] == Some(
                a,
            ) && s[k2] == Some(b) && forall|i: int|
                0 <= i < s.len() && i != k1 && i != k2 ==> #[trigger] s[i] is None)
            &&& k1 == k2 ==> forward == Err::<Seq<Option<Frac>>, ErrorView>(
                ErrorView::UnexpectedArgument(f2),
            )
        }),
{
    let k1 = flag_slot(set, f1)->0;
    let k2 = flag_slot(set, f2)->0;
    let init = Seq::new(slot_count(set), |i: int| None::<Frac>);
    assert(0 <= k1 < slot_count(set) && 0 <= k2 < slot_count(set));
    let ts = seq![f1, v1, f2, v2];
    assert(ts[0] == f1 && ts[1] == v1 && ts[2] == f2 && ts[3] == v2);
    assert(!missing_value(ts, 0) && !missing_value(ts, 2));
    let s1 = init.update(k1, Some(a));
    assert(assign_value(init[k1], f1, v1) == Ok::<Frac, ErrorView>(a));
    assert(flags_of(set, ts) == scan_flags(set, ts, 2, s1));
    if k1 == k2 {
        assert(s1[k2] is Some);
        assert(assign_value(s1[k2], f2, v2) == Err::<Frac, ErrorView>(
            ErrorView::UnexpectedArgument(f2),
        ));
    } else {
        let s2 = s1.update(k2, Some(b));
        assert(s1[k2] is None);
        assert(scan_flags(set, ts, 2, s1) == scan_flags(set, ts, 4, s2));
        assert(scan_flags(set, ts, 4, s2) == Ok::<Seq<Option<Frac>>, ErrorView>(s2));
        let us = seq![f2, v2, f1, v1];
        assert(us[0] == f2 && us[1] == v2 && us[2] == f1 && us[3] == v1);
        assert(!missing_value(us, 0) && !missing_value(us, 2));
        let u1 = init.update(k2, Some(b));
        assert(assign_value(init[k2], f2, v2) == Ok::<Frac, ErrorView>(b));
        assert(flags_of(set, us) == scan_flags(set, us, 2, u1));
        assert(u1[k1] is None);
        let u2 = u1.update(k1, Some(a));
        assert(scan_flags(set, us, 2, u1) == scan_flags(set, us, 4, u2));
        assert(scan_flags(set, us, 4, u2) == Ok::<Seq<Option<Frac>>, ErrorView>(u2));
        assert(u2 =~= s2);
    }
}

} // verus!

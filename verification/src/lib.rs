//! An electronics bench calculator: Ohm's law, power, series and parallel
//! resistance, voltage dividers and RC circuits, over exact decimal values
//! with SI prefixes, and their results in engineering notation.
use vstd::prelude::*;

pub mod calc;
pub mod cli;
pub mod error;
pub mod natural;
pub mod quantity;
pub mod text;
pub mod units;

use crate::calc::divider::{divider, divider_output};
use crate::calc::ohm::{ohm, ohm_law, OhmResult, OhmValue};
use crate::calc::power::{power, power_law};
use crate::calc::rc::{cutoff_frequency, rc, time_constant};
use crate::calc::resistance::{all_positive, parallel, parallel_value, series, series_sum};
use crate::cli::{command_help, command_help_text, parse_args, texts, Command, CommandView, GLOBAL_HELP};
use crate::error::{EecalcError, ErrorView};
use crate::quantity::is_positive;
use crate::units::{eng_text, format_eng};

verus! {

/// What the calculator prints for the arguments, or the error it reports.
pub open spec fn run_output(ts: Seq<Seq<char>>) -> Result<Seq<char>, ErrorView> {
    match parse_args(ts) {
        Err(e) => Err(e),
        Ok(command) => match command {
            CommandView::Help => Ok(GLOBAL_HELP@),
            CommandView::CommandHelp(name) => Ok(command_help_text(name)),
            CommandView::Ohm(given) => match ohm_law(given) {
                Err(e) => Err(e),
                Ok(OhmValue::Voltage(v)) => Ok("V = "@ + eng_text(v, "V"@)),
                Ok(OhmValue::Current(i)) => Ok("I = "@ + eng_text(i, "A"@)),
                Ok(OhmValue::Resistance(r)) => Ok("R = "@ + eng_text(r, "Ω"@)),
            },
            CommandView::Power(given) => match power_law(given) {
                Err(e) => Err(e),
                Ok(p) => Ok("P = "@ + eng_text(p, "W"@)),
            },
            CommandView::Series(values) => if all_positive(values) {
                Ok("R = "@ + eng_text(series_sum(values), "Ω"@))
            } else {
                Err(ErrorView::NonPositiveValue { what: "resistance"@ })
            },
            CommandView::Parallel(values) => if all_positive(values) {
                Ok("R = "@ + eng_text(parallel_value(values), "Ω"@))
            } else {
                Err(ErrorView::NonPositiveValue { what: "resistance"@ })
            },
            CommandView::Divider { vin, r1, r2 } => if is_positive(r1) && is_positive(r2) {
                Ok("Vout = "@ + eng_text(divider_output(vin, r1, r2), "V"@))
            } else {
                Err(ErrorView::NonPositiveValue { what: "resistance"@ })
            },
            CommandView::Rc { resistance, capacitance } => if !is_positive(resistance) {
                Err(ErrorView::NonPositiveValue { what: "resistance"@ })
            } else if !is_positive(capacitance) {
                Err(ErrorView::NonPositiveValue { what: "capacitance"@ })
            } else {
                Ok(
                    "tau = "@ + eng_text(time_constant(resistance, capacitance), "s"@) + "\nfc  = "@
                        + eng_text(cutoff_frequency(resistance, capacitance), "Hz"@),
                )
            },
        },
    }
}

/// `label` followed by `value` in engineering notation with `unit`.
fn labelled(label: &str, value: &crate::quantity::Quantity, unit: &str) -> (r: String)
    ensures
        r@ == label@ + eng_text(value@, unit@),
{
    let mut out = String::from_str(label);
    let text = format_eng(value, unit);
    out.append(text.as_str());
    out
}

/// Parses `args` (with the program name already stripped) and returns formatted stdout.
pub fn run(args: &[String]) -> (r: Result<String, EecalcError>)
    ensures
        match r {
            Ok(out) => run_output(texts(args@)) == Ok::<Seq<char>, ErrorView>(out@),
            Err(e) => run_output(texts(args@)) == Err::<Seq<char>, ErrorView>(e@),
        },
{
    let ghost ts = texts(args@);
    let command = cli::parse(args)?;
    let ghost cv = command@;
    assert(parse_args(ts) == Ok::<CommandView, ErrorView>(cv));
    match command {
        Command::Help => {
            let out = String::from_str(GLOBAL_HELP);
            assert(run_output(ts) == Ok::<Seq<char>, ErrorView>(out@));
            Ok(out)
        },
        Command::CommandHelp(name) => {
            let out = command_help(name);
            assert(run_output(ts) == Ok::<Seq<char>, ErrorView>(out@));
            Ok(out)
        },
        Command::Ohm(given) => {
            let out = match ohm(given)? {
                OhmResult::Voltage(v) => labelled("V = ", &v, "V"),
                OhmResult::Current(i) => labelled("I = ", &i, "A"),
                OhmResult::Resistance(r) => labelled("R = ", &r, "Ω"),
            };
            assert(run_output(ts) == Ok::<Seq<char>, ErrorView>(out@));
            Ok(out)
        },
        Command::Power(given) => {
            let p = power(given)?;
            let out = labelled("P = ", &p, "W");
            assert(run_output(ts) == Ok::<Seq<char>, ErrorView>(out@));
            Ok(out)
        },
        Command::Series(values) => {
            let r = series(values.as_slice())?;
            let out = labelled("R = ", &r, "Ω");
            assert(run_output(ts) == Ok::<Seq<char>, ErrorView>(out@));
            Ok(out)
        },
        Command::Parallel(values) => {
            let r = parallel(values.as_slice())?;
            let out = labelled("R = ", &r, "Ω");
            assert(run_output(ts) == Ok::<Seq<char>, ErrorView>(out@));
            Ok(out)
        },
        Command::Divider { vin, r1, r2 } => {
            let vout = divider(vin, r1, r2)?;
            let out = labelled("Vout = ", &vout, "V");
            assert(run_output(ts) == Ok::<Seq<char>, ErrorView>(out@));
            Ok(out)
        },
        Command::Rc { resistance, capacitance } => {
            let (tau, fc) = rc(resistance, capacitance)?;
            let mut out = labelled("tau = ", &tau, "s");
            let second = labelled("\nfc  = ", &fc, "Hz");
            let ghost first = out@;
            out.append(second.as_str());
            assert(out@ =~= "tau = "@ + eng_text(tau@, "s"@) + "\nfc  = "@ + eng_text(fc@, "Hz"@));
            assert(run_output(ts) == Ok::<Seq<char>, ErrorView>(out@));
            Ok(out)
        },
    }
}

} // verus!

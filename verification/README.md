# eecalc

A command-line calculator for electronics bench work, written in Verus: every
function of the library carries a contract that Verus proves.

```
$ eecalc ohm --voltage 12 --resistance 470
I = 25.53 mA
$ eecalc rc --resistance 10k --capacitance 1u
tau = 10 ms
fc  = 15.92 Hz
```

Commands: `ohm`, `power`, `series`, `parallel`, `divider`, `rc`, and `help`
(`eecalc help` lists them). Values are decimals with an optional SI prefix from
`p n u m k M`; results are printed in engineering notation with four significant
figures.

## Numbers

Values are exact fractions (`quantity::Quantity`) over arbitrary-size naturals
(`natural::Natural`), so `0.1 + 0.2` is `0.3` and every formula is computed
without rounding; only the printed result is rounded, to four significant figures,
half away from zero. π is the double-precision value `3.141592653589793…`, taken
exactly.

## Layout

- `src/natural.rs`: naturals as decimal digits; sum, difference, product, comparison,
  bounded division.
- `src/quantity.rs`: signed fractions and their arithmetic.
- `src/units.rs`: reading values with SI prefixes; engineering notation.
- `src/calc/`: Ohm's law, power, series and parallel resistance, dividers, RC circuits.
- `src/cli.rs`: the command line, read into a command.
- `src/error.rs`: the errors, their messages and exit codes.
- `src/lib.rs`: `run`, from arguments to the text that is printed.
- `app/main.rs`: the program: arguments in, output or error out, exit code.
- `tests/`: tests of the library.

Each public function's contract refers to a spec function that states its result;
the laws that relate functions (Ohm's law round trips, the agreement of the three
power formulas, `tau * fc = 1 / (2π)`, rounding to nearest, and others) are public
proof functions beside the code they speak of.

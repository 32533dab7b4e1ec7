//! Values that the rendered pages show.

use vstd::prelude::*;
use std::time::Instant;
use crate::hexcode::hex_text;
use crate::structs::Denom;
use crate::text::{decimal_text, padded_text, push_decimal, push_six_digits};

verus! {

/// A point in time of the monotonic clock. Nothing is known of its value.
#[verifier::external_type_specification]
#[verifier::external_body]
pub struct ExInstant(Instant);

/// `Instant::now` of std: the present reading of the monotonic clock.
/// Nothing is claimed of what it returns.
#[verifier::external_body]
fn clock_now() -> (now: Instant) {
    Instant::now()
}

/// A text shown in a bubble beside a field of a page.
#[derive(Debug)]
pub struct InfoBubble(pub String);

/// The bubbles of the block page.
#[derive(Debug)]
pub struct ToolTips {
    pub hash: InfoBubble,
    pub height: InfoBubble,
    pub fee_pool: InfoBubble,
}

/// Remembers when the rendering of a page began, and under which label.
pub struct RenderTimeTracer<'a> {
    pub start_time: Instant,
    pub label: &'a str,
}

impl<'a> RenderTimeTracer<'a> {
    /// Starts the clock for the page named `label`: the rendering is
    /// taken to begin at the clock's reading at this call.
    pub fn new(label: &'a str) -> (tracer: Self)
        ensures
            tracer.label == label,
    {
        RenderTimeTracer::starting_at(label, clock_now())
    }

    /// A tracer for the page named `label` whose rendering began at `now`.
    pub fn starting_at(label: &'a str, now: Instant) -> (tracer: Self)
        ensures
            tracer.start_time == now,
            tracer.label == label,
    {
        Self { start_time: now, label }
    }
}

/// Micro-units in one unit of a denomination.
pub const MICRO_CONVERTER: u128 = 1_000_000;

/// An amount in micro-units, with the name of its denomination.
#[derive(Debug)]
pub struct MicroUnit(pub u128, pub String);

/// The text of an amount: the whole units, a point, the six digits of the
/// micro-units, a space, and the name of the denomination.
pub open spec fn micro_unit_text(amount: u128, name: Seq<char>) -> Seq<char> {
    decimal_text((amount / MICRO_CONVERTER) as nat) + seq!['.'] + padded_text(
        (amount % MICRO_CONVERTER) as nat,
        6,
    ) + seq![' '] + name
}

impl MicroUnit {
    /// The amount as text, such as `12.000345 MEL`.
    pub fn to_string(&self) -> (text: String)
        ensures
            text@ == micro_unit_text(self.0, self.1@),
    {
        let mut text = String::new();
        push_decimal(&mut text, self.0 / MICRO_CONVERTER);
        text.push('.');
        push_six_digits(&mut text, self.0 % MICRO_CONVERTER);
        text.push(' ');
        text.push_str(self.1.as_str());
        assert(text@ =~= micro_unit_text(self.0, self.1@));
        text
    }
}

/// The name under which the pages show a denomination.
pub open spec fn friendly_text(denom: Denom) -> Seq<char> {
    match denom {
        Denom::Mel => "MEL"@,
        Denom::Sym => "SYM"@,
        Denom::Erg => "ERG"@,
        Denom::Custom(hash) => "Custom ("@ + hex_text(hash.bytes@.take(5)) + "..)"@,
        Denom::NewCoin => "(new denom)"@,
    }
}

/// The name under which the pages show a denomination: the short name of
/// a built-in one, and the first five bytes of a custom one's hash.
pub fn friendly_denom(denom: Denom) -> (name: String)
    ensures
        name@ == friendly_text(denom),
{
    match denom {
        Denom::Mel => "MEL".to_owned(),
        Denom::Sym => "SYM".to_owned(),
        Denom::Erg => "ERG".to_owned(),
        Denom::Custom(hash) => {
            let mut name = "Custom (".to_owned();
            let short = hash.to_short_hex();
            name.push_str(short.as_str());
            name.push_str("..)");
            name
        },
        Denom::NewCoin => "(new denom)".to_owned(),
    }
}

/// The text of an operation as the pages show it: an opening bracket and
/// a comma become a space each, a closing bracket is left out.
pub open spec fn tidy_text(text: Seq<char>) -> Seq<char>
    decreases text.len(),
{
    if text.len() == 0 {
        Seq::empty()
    } else {
        let earlier = tidy_text(text.drop_last());
        let c = text.last();
        if c == '(' || c == ',' {
            earlier.push(' ')
        } else if c == ')' {
            earlier
        } else {
            earlier.push(c)
        }
    }
}

/// Makes the text of an operation fit for a page: `PushI(5)` becomes
/// `PushI 5`.
pub fn tidy_opcode(text: &str) -> (tidy: String)
    ensures
        tidy@ == tidy_text(text@),
{
    broadcast use vstd::string::group_string_axioms;

    let mut tidy = String::new();
    assert(text@.take(0) =~= Seq::<char>::empty());
    for c in it: text.chars()
        invariant
            it.seq() == text@,
            tidy@ == tidy_text(text@.take(it.index() as int)),
    {
        proof {
            let n = it.index() as int;
            assert(text@.take(n + 1).drop_last() =~= text@.take(n));
            assert(text@.take(n + 1).last() == c);
        }
        if c == '(' || c == ',' {
            tidy.push(' ');
        } else if c == ')' {
        } else {
            tidy.push(c);
        }
    }
    assert(text@.take(text@.len() as int) =~= text@);
    tidy
}

} // verus!

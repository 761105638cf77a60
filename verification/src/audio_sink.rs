use vstd::prelude::*;
use vstd::std_specs::cmp::PartialEqSpecImpl;
use vstd::std_specs::cmp::PartialEqSpec;
use crate::decimal::{decimal, push_decimal, lemma_decimal_injective};

verus! {

/// Something that audio can be sent to, set up for a given number of channels.
pub trait AudioSink {
    /// (Re)creates the sink's ports and processing for `number_of_channels` channels.
    fn init(&mut self, number_of_channels: usize);
}

/// How the inputs of a sink are routed to its outputs.
pub enum SinkType {
    /// Each input channel is processed into its own output channel.
    OneToOne,
    /// All input channels are mixed into one output.
    AllToOne,
}

/// The start of the name of every input port.
pub const INPUT_PORT_NAME_BASE: &'static str = "input_port_";

/// The start of the name of every output port.
pub const OUTPUT_PORT_NAME_BASE: &'static str = "output_port_";

/// The name of input port `number`: the base name followed by the number in decimal.
pub fn input_port_name(number: usize) -> (name: String)
    ensures
        name@ == INPUT_PORT_NAME_BASE@ + decimal(number as nat),
{
    let mut name = String::from_str(INPUT_PORT_NAME_BASE);
    push_decimal(&mut name, number);
    name
}

/// The name of output port `number`: the base name followed by the number in decimal.
pub fn output_port_name(number: usize) -> (name: String)
    ensures
        name@ == OUTPUT_PORT_NAME_BASE@ + decimal(number as nat),
{
    let mut name = String::from_str(OUTPUT_PORT_NAME_BASE);
    push_decimal(&mut name, number);
    name
}

/// The pattern that matches the full name of every port of the client
/// called `client_name`: the client name followed by `:.*`.
pub fn client_ports_pattern(client_name: &str) -> (pattern: String)
    ensures
        pattern@ == client_name@ + ":.*"@,
{
    let mut pattern = String::from_str(client_name);
    pattern.append(":.*");
    pattern
}

/// Every channel's ports get names of their own: two channels with different
/// numbers never share an input or an output port name, and no input port is
/// named like an output port.
pub proof fn lemma_port_names_distinct(n: nat, m: nat)
    ensures
        n != m ==> INPUT_PORT_NAME_BASE@ + decimal(n) != INPUT_PORT_NAME_BASE@ + decimal(m),
        n != m ==> OUTPUT_PORT_NAME_BASE@ + decimal(n) != OUTPUT_PORT_NAME_BASE@ + decimal(m),
        INPUT_PORT_NAME_BASE@ + decimal(n) != OUTPUT_PORT_NAME_BASE@ + decimal(m),
{
    reveal_strlit("input_port_");
    reveal_strlit("output_port_");
    let i = INPUT_PORT_NAME_BASE@;
    let o = OUTPUT_PORT_NAME_BASE@;
    if i + decimal(n) == i + decimal(m) {
        assert((i + decimal(n)).subrange(i.len() as int, (i + decimal(n)).len() as int) =~= decimal(n));
        assert((i + decimal(m)).subrange(i.len() as int, (i + decimal(m)).len() as int) =~= decimal(m));
        lemma_decimal_injective(n, m);
    }
    if o + decimal(n) == o + decimal(m) {
        assert((o + decimal(n)).subrange(o.len() as int, (o + decimal(n)).len() as int) =~= decimal(n));
        assert((o + decimal(m)).subrange(o.len() as int, (o + decimal(m)).len() as int) =~= decimal(m));
        lemma_decimal_injective(n, m);
    }
    assert((i + decimal(n))[0] == 'i');
    assert((o + decimal(m))[0] == 'o');
}

/// One numbered channel of a sink: its number, the names of its two ports,
/// and the ports themselves (`C`).
pub struct PortInfo<C> {
    pub number: usize,
    pub input_port_name: String,
    pub output_port_name: String,
    pub channel: C,
}

impl<C> PortInfo<C> {
    /// The start of the name of every input port.
    pub const INPUT_PORT_NAME_BASE: &'static str = INPUT_PORT_NAME_BASE;

    /// The start of the name of every output port.
    pub const OUTPUT_PORT_NAME_BASE: &'static str = OUTPUT_PORT_NAME_BASE;

    /// The channel numbered `number`, its ports named after the number.
    pub fn new(number: usize, channel: C) -> (info: Self)
        ensures
            info.number == number,
            info.input_port_name@ == INPUT_PORT_NAME_BASE@ + decimal(number as nat),
            info.output_port_name@ == OUTPUT_PORT_NAME_BASE@ + decimal(number as nat),
            info.channel == channel,
    {
        PortInfo {
            number,
            input_port_name: input_port_name(number),
            output_port_name: output_port_name(number),
            channel,
        }
    }
}

impl<C> PartialEq for PortInfo<C> {
    /// Two channels are the same channel when they have the same number.
    fn eq(&self, other: &Self) -> (r: bool)
        ensures
            r == (self.number == other.number),
    {
        self.number == other.number
    }
}

impl<C> PartialEqSpecImpl for PortInfo<C> {
    open spec fn obeys_eq_spec() -> bool {
        true
    }

    open spec fn eq_spec(&self, other: &Self) -> bool {
        self.number == other.number
    }
}

/// Two channel records are equal exactly when their numbers are equal, whatever
/// their names and ports; so equality is symmetric and two records with
/// different numbers are never equal.
pub proof fn lemma_port_info_equality<C>(a: PortInfo<C>, b: PortInfo<C>)
    ensures
        PartialEqSpec::eq_spec(&a, &b) == (a.number == b.number),
        PartialEqSpec::eq_spec(&a, &b) == PartialEqSpec::eq_spec(&b, &a),
        PartialEqSpec::eq_spec(&a, &a),
{
}

/// `usize::hash` from std feeds the integer to the hasher. What the hasher's
/// state becomes is not stated: it depends on the hasher.
pub assume_specification<H: core::hash::Hasher>[ <usize as core::hash::Hash>::hash::<H> ](
    value: &usize,
    state: &mut H,
);

impl<C> core::hash::Hash for PortInfo<C> {
    /// A channel hashes as its number, so that equal channels hash alike.
    fn hash<H: core::hash::Hasher>(&self, state: &mut H) {
        self.number.hash(state);
    }
}

} // verus!

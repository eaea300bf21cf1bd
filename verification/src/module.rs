//! Module abstractions: the traits every synthesis component implements, a
//! signal connection, and port-name validation.

use vstd::prelude::*;
use crate::text::{push_str, push_chars};

verus! {

/// The core abstraction for all synthesis components.
///
/// Every module in the synthesis graph implements this trait; modules
/// process one sample at a time at audio rate.
pub trait Module {
    /// Processes one sample; `false` asks for the module's removal. A
    /// module that does not say otherwise stays.
    fn process(&mut self) -> (active: bool)
        default_ensures
            active,
    {
        true
    }

    /// The module's name, for debugging; `Module` unless it says otherwise.
    fn name(&self) -> (r: &str)
        default_ensures
            r@ == "Module"@,
    {
        "Module"
    }
}

/// A module that produces signals without requiring input (oscillators,
/// LFOs, clocks, noise generators).
pub trait Generator<T>: Module {
    /// Generates and returns the next output sample.
    fn output(&mut self) -> T;
}

/// A module that transforms an input signal into an output signal (filters,
/// effects, envelopes).
pub trait Processor<TIn, TOut>: Module {
    /// Processes an input signal and returns the transformed output.
    fn process_signal(&mut self, input: TIn) -> TOut;
}

/// A signal path between modules, like a patch cable: it holds the last
/// value written to it.
pub struct Connection<T> {
    signal: T,
}

impl<T: Clone> Connection<T> {
    /// The value the cable currently carries.
    pub closed spec fn value(&self) -> T {
        self.signal
    }

    /// A cable carrying `signal`.
    pub fn new(signal: T) -> (r: Self)
        ensures
            r.value() == signal,
    {
        Connection { signal }
    }

    /// A clone of the carried value.
    pub fn read(&self) -> (r: T)
        ensures
            cloned(self.value(), r),
    {
        self.signal.clone()
    }

    /// Replaces the carried value.
    pub fn write(&mut self, signal: T)
        ensures
            final(self).value() == signal,
    {
        self.signal = signal;
    }
}

/// `c` as `str::escape_debug` writes it, for the characters that need an
/// escape in a quoted name: quote, backslash, and the common control
/// characters.
pub open spec fn escaped(c: char) -> Seq<char> {
    if c == '"' {
        seq!['\\', '"']
    } else if c == '\\' {
        seq!['\\', '\\']
    } else if c == '\n' {
        seq!['\\', 'n']
    } else if c == '\r' {
        seq!['\\', 'r']
    } else if c == '\t' {
        seq!['\\', 't']
    } else if c == '\0' {
        seq!['\\', '0']
    } else {
        seq![c]
    }
}

/// The escaped text of `s`.
pub open spec fn escape_text(s: Seq<char>) -> Seq<char>
    decreases s.len(),
{
    if s.len() == 0 {
        Seq::empty()
    } else {
        escape_text(s.drop_last()) + escaped(s.last())
    }
}

/// `s` quoted as its `Debug` form shows it.
pub open spec fn quoted(s: Seq<char>) -> Seq<char> {
    seq!['"'] + escape_text(s) + seq!['"']
}

/// The first `k` names quoted and separated by ", ".
pub open spec fn quoted_list(names: Seq<&str>, k: nat) -> Seq<char>
    decreases k,
{
    if k == 0 || k > names.len() {
        Seq::empty()
    } else if k == 1 {
        quoted(names[0]@)
    } else {
        quoted_list(names, (k - 1) as nat) + ", "@ + quoted(names[k - 1]@)
    }
}

/// The error for a port that is not among `valid_ports`.
pub open spec fn unknown_port_msg(port: Seq<char>, valid_ports: Seq<&str>, port_type: Seq<char>) -> Seq<char> {
    "Unknown "@ + port_type + " port '"@ + port + "'. Valid ports: ["@
        + quoted_list(valid_ports, valid_ports.len()) + "]"@
}

pub(crate) fn push_quoted(out: &mut Vec<char>, s: &str)
    ensures
        final(out)@ == old(out)@ + quoted(s@),
{
    let ghost start = out@;
    out.push('"');
    let n = s.unicode_len();
    let mut i: usize = 0;
    proof {
        assert(s@.take(0) =~= Seq::<char>::empty());
    }
    while i < n
        invariant
            n == s@.len(),
            i <= n,
            out@ == start + seq!['"'] + escape_text(s@.take(i as int)),
        decreases n - i,
    {
        let c = s.get_char(i);
        proof {
            assert(s@.take(i + 1).drop_last() =~= s@.take(i as int));
        }
        let ghost before = out@;
        if c == '"' {
            out.push('\\');
            out.push('"');
        } else if c == '\\' {
            out.push('\\');
            out.push('\\');
        } else if c == '\n' {
            out.push('\\');
            out.push('n');
        } else if c == '\r' {
            out.push('\\');
            out.push('r');
        } else if c == '\t' {
            out.push('\\');
            out.push('t');
        } else if c == '\0' {
            out.push('\\');
            out.push('0');
        } else {
            out.push(c);
        }
        i = i + 1;
        proof {
            assert(out@ =~= before + escaped(c));
            assert(out@ =~= start + seq!['"'] + escape_text(s@.take(i as int)));
        }
    }
    out.push('"');
    proof {
        assert(s@.take(n as int) =~= s@);
        assert(out@ =~= start + quoted(s@));
    }
}

/// Checks a port name against a module's port list at construction.
///
/// `Ok` exactly when `port` is one of `valid_ports`; otherwise the error
/// names the port, its kind, and the valid ports in their `Debug` form.
pub fn validate_port(port: &str, valid_ports: &[&str], port_type: &str) -> (r: Result<(), String>)
    ensures
        r is Ok <==> exists|i: int| 0 <= i < valid_ports@.len() && (#[trigger] valid_ports@[i])@ == port@,
        r matches Err(e) ==> e@ == unknown_port_msg(port@, valid_ports@, port_type@),
{
    let mut i: usize = 0;
    while i < valid_ports.len()
        invariant
            i <= valid_ports@.len(),
            forall|j: int| 0 <= j < i ==> (#[trigger] valid_ports@[j])@ != port@,
        decreases valid_ports.len() - i,
    {
        if crate::text::str_equal(valid_ports[i], port) {
            return Ok(());
        }
        i = i + 1;
    }
    let mut msg: Vec<char> = Vec::new();
    push_str(&mut msg, "Unknown ");
    push_str(&mut msg, port_type);
    push_str(&mut msg, " port '");
    push_str(&mut msg, port);
    push_str(&mut msg, "'. Valid ports: [");
    let ghost head = msg@;
    let mut k: usize = 0;
    while k < valid_ports.len()
        invariant
            k <= valid_ports@.len(),
            msg@ == head + quoted_list(valid_ports@, k as nat),
        decreases valid_ports.len() - k,
    {
        if k > 0 {
            push_str(&mut msg, ", ");
        }
        push_quoted(&mut msg, valid_ports[k]);
        k = k + 1;
        proof {
            if k == 1 {
                assert(msg@ =~= head + quoted_list(valid_ports@, k as nat));
            } else {
                assert(msg@ =~= head + quoted_list(valid_ports@, k as nat));
            }
        }
    }
    push_str(&mut msg, "]");
    proof {
        assert(msg@ =~= unknown_port_msg(port@, valid_ports@, port_type@));
    }
    Err(crate::text::string_of(&msg))
}

} // verus!

//! Stack traces with their symbols.

use vstd::prelude::*;

verus! {

/// One frame of a stack trace: where its function begins, and its name.
#[derive(Clone, Debug)]
pub struct FrameSymbol {
    pub address: u64,
    pub symbol: String,
}

/// A `FrameSymbol` as mathematics.
pub struct Frame {
    pub address: u64,
    pub symbol: Seq<char>,
}

impl View for FrameSymbol {
    type V = Frame;

    open spec fn view(&self) -> Frame {
        Frame { address: self.address, symbol: self.symbol@ }
    }
}

/// The frames of a stack trace, innermost first.
#[derive(Clone, Debug)]
pub struct ResolvedStackTrace {
    pub symbols: Vec<FrameSymbol>,
}

impl View for ResolvedStackTrace {
    type V = Seq<Frame>;

    open spec fn view(&self) -> Seq<Frame> {
        self.symbols@.map_values(|frame: FrameSymbol| frame@)
    }
}

/// The names of the frames.
pub open spec fn names(frames: Seq<Frame>) -> Seq<Seq<char>> {
    frames.map_values(|frame: Frame| frame.symbol)
}

/// The names of the frames with semicolons between them.
pub open spec fn folded(frames: Seq<Frame>) -> Seq<char> {
    crate::text::joined(names(frames), seq![';'])
}

/// A folded stack with its weight: a space between them.
pub open spec fn folded_line(stack: Seq<char>, weight: u64) -> Seq<char> {
    stack + seq![' '] + crate::text::decimal(weight as nat)
}

impl ResolvedStackTrace {
    /// The names of the frames with semicolons between them.
    pub fn folded_stack(&self) -> (stack: String)
        ensures
            stack@ == folded(self@),
    {
        let mut stack = String::new();
        let ghost all = names(self@);
        let mut i: usize = 0;
        while i < self.symbols.len()
            invariant
                i <= self.symbols@.len(),
                all == names(self@),
                stack@ == crate::text::joined(all.take(i as int), seq![';']),
            decreases self.symbols@.len() - i,
        {
            proof {
                assert(all.take(i + 1).drop_last() =~= all.take(i as int));
                assert(all.take(i + 1).last() == self.symbols@[i as int].symbol@);
            }
            if i > 0 {
                stack.push(';');
            }
            stack.append(self.symbols[i].symbol.as_str());
            i += 1;
            proof {
                assert(stack@ =~= crate::text::joined(all.take(i as int), seq![';']));
            }
        }
        assert(all.take(i as int) =~= all);
        stack
    }

    /// The trace as a folded line: the names with semicolons between them, a space and
    /// the weight.
    pub fn as_inferno_line(&self, weight: u64) -> (line: String)
        ensures
            line@ == folded_line(folded(self@), weight),
    {
        let mut line = self.folded_stack();
        line.push(' ');
        crate::text::push_decimal(&mut line, weight);
        assert(line@ =~= folded_line(folded(self@), weight));
        line
    }
}

/// What a symbolizer says of one address.
#[derive(Clone, Debug)]
pub enum Symbolization {
    Known { address: u64, name: String },
    Unknown { reason: String },
}

/// The frame of an address: its function, or address zero and the reason why there is none.
pub open spec fn frame_of(symbolization: Symbolization) -> Frame {
    match symbolization {
        Symbolization::Known { address, name } => Frame { address, symbol: name@ },
        Symbolization::Unknown { reason } => Frame { address: 0, symbol: reason@ },
    }
}

/// The trace of what a symbolizer says of its addresses.
pub fn trace_of(symbolizations: Vec<Symbolization>) -> (trace: ResolvedStackTrace)
    ensures
        trace@ == symbolizations@.map_values(|s: Symbolization| frame_of(s)),
{
    let ghost all = symbolizations@;
    let mut symbols: Vec<FrameSymbol> = Vec::new();
    for symbolization in it: symbolizations
        invariant
            it.seq() == all,
            symbols@.len() == it.index(),
            forall|i: int| 0 <= i < symbols@.len() ==> (#[trigger] symbols@[i])@ == frame_of(all[i]),
    {
        let frame = match symbolization {
            Symbolization::Known { address, name } => FrameSymbol { address, symbol: name },
            Symbolization::Unknown { reason } => FrameSymbol { address: 0, symbol: reason },
        };
        symbols.push(frame);
    }
    let trace = ResolvedStackTrace { symbols };
    assert(trace@ =~= all.map_values(|s: Symbolization| frame_of(s)));
    trace
}

/// Names the functions of a stack trace.
pub trait SymbolResolver {
    /// The frames of the instructions at the addresses of `stacktrace` in process `pid`.
    fn resolve_stacktrace(&self, stacktrace: &Vec<u64>, pid: u32) -> Result<
        ResolvedStackTrace,
        String,
    >;
}

/// Why a stack trace has no symbols.
#[derive(Clone, Debug)]
pub enum ResolveError {
    /// The addresses could not be looked up.
    Lookup(String),
    /// The resolver failed.
    Resolver(String),
}

impl ResolveError {
    pub open spec fn text(self) -> Seq<char> {
        match self {
            ResolveError::Lookup(err) => "stack trace lookup failed: "@ + err@,
            ResolveError::Resolver(err) => err@,
        }
    }

    pub fn message(&self) -> (message: String)
        ensures
            message@ == self.text(),
    {
        match self {
            ResolveError::Lookup(err) => {
                let mut message = String::new();
                message.append("stack trace lookup failed: ");
                message.append(err.as_str());
                assert(message@ =~= self.text());
                message
            },
            ResolveError::Resolver(err) => err.clone(),
        }
    }
}

/// What comes of a trace for each answer of the resolver.
pub open spec fn resolved_or(answer: Result<ResolvedStackTrace, String>) -> Result<
    ResolvedStackTrace,
    ResolveError,
> {
    match answer {
        Ok(trace) => Ok(trace),
        Err(err) => Err(ResolveError::Resolver(err)),
    }
}

/// The symbols of a trace whose addresses were looked up.
pub fn symbolize<R: SymbolResolver>(
    lookup: Result<Vec<u64>, String>,
    pid: u32,
    resolver: &R,
) -> (resolved: Result<ResolvedStackTrace, ResolveError>)
    ensures
        match lookup {
            Err(err) => resolved == Err::<ResolvedStackTrace, ResolveError>(
                ResolveError::Lookup(err),
            ),
            Ok(addresses) => exists|answer: Result<ResolvedStackTrace, String>|
                call_ensures(R::resolve_stacktrace, (resolver, &addresses, pid), answer)
                    && resolved == #[trigger] resolved_or(answer),
        },
{
    match lookup {
        Err(err) => Err(ResolveError::Lookup(err)),
        Ok(addresses) => {
            let answer = resolver.resolve_stacktrace(&addresses, pid);
            assert(call_ensures(R::resolve_stacktrace, (resolver, &addresses, pid), answer));
            let ghost given = answer;
            let resolved = match answer {
                Ok(trace) => Ok(trace),
                Err(err) => Err(ResolveError::Resolver(err)),
            };
            assert(resolved == resolved_or(given));
            resolved
        },
    }
}

/// A folded stack holds the name of every frame once and in order, with semicolons between them.
pub proof fn law_folded_stack_holds_every_name(frames: Seq<Frame>)
    ensures
        folded(frames) == crate::text::joined(
            Seq::new(frames.len(), |i: int| frames[i].symbol),
            seq![';'],
        ),
        frames.len() == 0 ==> folded(frames) == Seq::<char>::empty(),
        frames.len() == 1 ==> folded(frames) == frames[0].symbol,
        frames.len() >= 2 ==> folded(frames) == frames[0].symbol + seq![';'] + folded(
            frames.drop_first(),
        ),
{
    assert(names(frames) =~= Seq::new(frames.len(), |i: int| frames[i].symbol));
    crate::text::law_joined_from_the_front(names(frames), seq![';']);
    if frames.len() > 0 {
        assert(names(frames.drop_first()) =~= names(frames).drop_first());
    }
}

/// A folded line is the stack, a space, and the weight in decimal, which can be read back.
pub proof fn law_folded_line_reads_back(stack: Seq<char>, weight: u64)
    ensures
        folded_line(stack, weight).len() > stack.len() + 1,
        folded_line(stack, weight).take(stack.len() as int) == stack,
        folded_line(stack, weight)[stack.len() as int] == ' ',
        folded_line(stack, weight).skip((stack.len() + 1) as int) == crate::text::decimal(weight as nat),
        crate::text::value_of(folded_line(stack, weight).skip((stack.len() + 1) as int), 10) == weight,
{
    let line = folded_line(stack, weight);
    crate::text::law_decimal_and_hex_read_back(weight as nat);
    crate::text::law_numeral_is_made_of_digits(weight as nat, 10);
    assert(line.take(stack.len() as int) =~= stack);
    assert(line.skip((stack.len() + 1) as int) =~= crate::text::decimal(weight as nat));
}

/// An address of a function that is known is shown with where the function begins and its name;
/// one that is not, with address zero and the reason.
pub proof fn law_frame_tells_function_or_reason(address: u64, text: String)
    ensures
        frame_of(Symbolization::Known { address, name: text }).address == address,
        frame_of(Symbolization::Known { address, name: text }).symbol == text@,
        frame_of(Symbolization::Unknown { reason: text }).address == 0,
        frame_of(Symbolization::Unknown { reason: text }).symbol == text@,
{
}

/// What the resolver finds is kept as it is, and what it says of a failure too.
pub proof fn law_answer_of_resolver_is_kept(answer: Result<ResolvedStackTrace, String>)
    ensures
        answer is Ok ==> resolved_or(answer) == Ok::<ResolvedStackTrace, ResolveError>(
            answer->Ok_0,
        ),
        answer is Err ==> resolved_or(answer) == Err::<ResolvedStackTrace, ResolveError>(
            ResolveError::Resolver(answer->Err_0),
        ),
{
}

/// The message of a failure ends with what was said of it, and says whether the lookup failed.
pub proof fn law_message_tells_what_failed(said: String)
    ensures
        ResolveError::Lookup(said).text() == "stack trace lookup failed: "@ + said@,
        ResolveError::Resolver(said).text() == said@,
{
}

} // verus!

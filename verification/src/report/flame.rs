//! Flame graphs.

use crate::aggregator::StatsAggregator;
use crate::common::{Counts, Histogram};
use crate::model::OrderBy;
use crate::report::{listing, unpacked, weigh, Entry};
use crate::resolver::Frame;
use crate::text::{chars_of, find_first, find_last};
use rustc_hash::FxHashMap;
use vstd::prelude::*;

verus! {

/// A stack of a flame graph: its folded line, and the two parts of the line.
#[derive(Clone, Debug)]
pub struct FoldedStack {
    pub line: String,
    pub stack: String,
    pub weight: u64,
}

/// A folded stack and its weight as mathematics.
pub struct Folded {
    pub stack: Seq<char>,
    pub weight: u64,
}

impl FoldedStack {
    /// The line is made of the two parts.
    pub open spec fn wf(self) -> bool {
        self.line@ == crate::resolver::folded_line(self.stack@, self.weight)
    }
}

impl View for FoldedStack {
    type V = Folded;

    open spec fn view(&self) -> Folded {
        Folded { stack: self.stack@, weight: self.weight }
    }
}

/// What a flame graph is drawn from.
#[derive(Clone, Debug)]
pub struct FlamePlan {
    pub stacks: Vec<FoldedStack>,
    /// What the weights count.
    pub count_name: String,
    /// Whether the last frame of a stack is drawn at the bottom.
    pub reverse_stack_order: bool,
}

/// The folded stacks of the first `n` entries, without those that have no symbols or no
/// weight.
pub open spec fn drawn_before(
    entries: Seq<(u64, Counts)>,
    traces: Map<u32, Seq<Frame>>,
    order_by: OrderBy,
    n: int,
) -> Seq<Folded>
    decreases n,
{
    if n <= 0 {
        seq![]
    } else {
        let before = drawn_before(entries, traces, order_by, n - 1);
        let weight = crate::report::weight(order_by, entries[n - 1].1);
        match crate::report::trace_at(traces, crate::report::stack_of(entries[n - 1].0)) {
            Some(frames) if weight > 0 => before.push(
                Folded { stack: crate::resolver::folded(frames), weight },
            ),
            _ => before,
        }
    }
}

/// Every stack that is drawn has a weight.
pub proof fn law_drawn_stacks_have_weight(
    entries: Seq<(u64, Counts)>,
    traces: Map<u32, Seq<Frame>>,
    order_by: OrderBy,
    n: int,
    i: int,
)
    requires
        0 <= i < drawn_before(entries, traces, order_by, n).len(),
    ensures
        drawn_before(entries, traces, order_by, n)[i].weight > 0,
    decreases n,
{
    if n > 0 && i < drawn_before(entries, traces, order_by, n - 1).len() {
        law_drawn_stacks_have_weight(entries, traces, order_by, n - 1, i);
    }
}

/// What the weights count.
pub open spec fn count_name(order_by: OrderBy, value_label: Seq<char>) -> Seq<char> {
    match order_by {
        OrderBy::Count => "event count"@,
        OrderBy::Traffic => value_label,
    }
}

impl FlamePlan {
    /// The stacks with their weights.
    pub open spec fn folded(self) -> Seq<Folded> {
        self.stacks@.map_values(|stack: FoldedStack| stack@)
    }

    /// Whether each line is made of its stack and its weight.
    pub open spec fn wf(self) -> bool {
        forall|i: int| 0 <= i < self.stacks@.len() ==> (#[trigger] self.stacks@[i]).wf()
    }
}

/// What is drawn of some entries.
pub fn plan_entries(entries: &Vec<Entry>, aggregator: &StatsAggregator, order_by: OrderBy) -> (plan:
    FlamePlan)
    requires
        order_by == OrderBy::Count ==> forall|i: int|
            0 <= i < entries@.len() ==> (#[trigger] entries@[i]).hist@.count() <= u64::MAX,
    ensures
        plan.wf(),
        plan.folded() == drawn_before(
            crate::report::entries_of(entries@),
            aggregator@.traces,
            order_by,
            entries@.len() as int,
        ),
        plan.count_name@ == count_name(order_by, aggregator.metric().value_label@),
        plan.reverse_stack_order,
{
    let ghost views = crate::report::entries_of(entries@);
    let ghost view = |stack: FoldedStack| stack@;
    let mut stacks: Vec<FoldedStack> = Vec::new();
    let mut i: usize = 0;
    assert(stacks@.map_values(view) =~= drawn_before(views, aggregator@.traces, order_by, 0));
    while i < entries.len()
        invariant
            i <= entries@.len(),
            views == crate::report::entries_of(entries@),
            view == (|stack: FoldedStack| stack@),
            order_by == OrderBy::Count ==> forall|j: int|
                0 <= j < entries@.len() ==> (#[trigger] entries@[j]).hist@.count() <= u64::MAX,
            forall|j: int| 0 <= j < stacks@.len() ==> (#[trigger] stacks@[j]).wf(),
            stacks@.map_values(view) == drawn_before(
                views,
                aggregator@.traces,
                order_by,
                i as int,
            ),
        decreases entries@.len() - i,
    {
        let entry = entries[i];
        let ghost before = stacks@;
        assert(views[i as int] == (entry.word, entry.hist@));
        i += 1;
        if let Some(resolved) = aggregator.resolved(unpacked(entry.word).stack_id) {
            let weight: u64 = weigh(order_by, entry.hist);
            if weight == 0 {
                continue;
            }
            let folded = FoldedStack {
                line: resolved.as_inferno_line(weight),
                stack: resolved.folded_stack(),
                weight,
            };
            stacks.push(folded);
            assert(stacks@.map_values(view) =~= before.map_values(view).push(folded@));
        }
    }
    let mut count_name = String::new();
    match order_by {
        OrderBy::Count => count_name.append("event count"),
        OrderBy::Traffic => count_name.append(aggregator.value_label()),
    }
    assert(count_name@ =~= self::count_name(order_by, aggregator.metric().value_label@));
    FlamePlan { stacks, count_name, reverse_stack_order: true }
}

/// What is drawn of a table, in no particular order.
pub fn plan(
    stats: &FxHashMap<u64, Histogram>,
    aggregator: &StatsAggregator,
    order_by: OrderBy,
) -> (plan: FlamePlan)
    requires
        order_by == OrderBy::Count ==> crate::report::all_countable(stats@),
    ensures
        plan.wf(),
        exists|entries: Seq<(u64, Counts)>|
            crate::report::is_listing(stats@, false, entries) && plan.folded()
                == #[trigger] drawn_before(
                entries,
                aggregator@.traces,
                order_by,
                entries.len() as int,
            ),
        plan.count_name@ == count_name(order_by, aggregator.metric().value_label@),
        plan.reverse_stack_order,
{
    let entries = listing(stats);
    let ghost views = crate::report::entries_of(entries@);
    assert forall|i: int|
        0 <= i < entries@.len() && order_by == OrderBy::Count implies (
    #[trigger] entries@[i]).hist@.count() <= u64::MAX by {
        assert(views[i].0 == entries@[i].word);
    }
    let plan = plan_entries(&entries, aggregator, order_by);
    assert(plan.folded() == drawn_before(
        views,
        aggregator@.traces,
        order_by,
        views.len() as int,
    ));
    plan
}

/// Where white space ends from `from` on.
pub open spec fn skip_space(text: Seq<char>, from: int) -> int
    decreases text.len() - from,
{
    if 0 <= from < text.len() && crate::text::is_white_space(text[from]) {
        skip_space(text, from + 1)
    } else {
        from
    }
}

/// Where white space begins that ends at `to`.
pub open spec fn skip_space_back(text: Seq<char>, to: int) -> int
    decreases to,
{
    if 0 < to <= text.len() && crate::text::is_white_space(text[to - 1]) {
        skip_space_back(text, to - 1)
    } else {
        to
    }
}

/// What follows the last space, where there is one.
pub open spec fn last_word(text: Seq<char>) -> Option<Seq<char>> {
    let space = crate::text::last_index(text, ' ', text.len() as int);
    if space >= 0 {
        Some(text.skip(space + 1))
    } else {
        None
    }
}

/// Whether a word is written as a number: digits, and at most one point.
pub open spec fn is_number(word: Seq<char>) -> bool {
    &&& word.len() > 0
    &&& forall|i: int|
        0 <= i < word.len() ==> '0' <= #[trigger] word[i] <= '9' || word[i] == '.'
    &&& forall|i: int, j: int|
        0 <= i < j < word.len() && #[trigger] word[i] == '.' ==> #[trigger] word[j] != '.'
}

/// The number of a word that is written as one, up to its point; nothing where there are no
/// digits, or too many for a `u64`.
pub open spec fn whole_number(word: Seq<char>) -> Option<nat> {
    let digits = word.take(crate::text::first_index(word, '.', 0));
    let value = crate::text::value_of(digits, 10);
    if digits.len() > 0 && value <= u64::MAX {
        Some(value as nat)
    } else {
        None
    }
}

/// The number in a stack that `inferno` reads as a second weight when it draws the last frame
/// at the bottom: one behind the last space. Where none stands there, one at the end of the
/// first part, up to the first semicolon.
pub open spec fn second_weight(stack: Seq<char>) -> Option<nat> {
    let text = stack.skip(skip_space(stack, 0));
    let first = text.take(crate::text::first_index(text, ';', 0));
    let part = first.take(skip_space_back(first, first.len() as int));
    match last_word(text) {
        Some(word) if is_number(word) => whole_number(word),
        _ => match last_word(part) {
            Some(word) if is_number(word) => whole_number(word),
            _ => None,
        },
    }
}

/// By what `inferno` multiplies the difference of two weights to find a color.
pub const COLOR_STEPS: u64 = 150;

/// Whether a stack can be drawn. Where `inferno` reads a second weight, it takes both as signed
/// numbers, subtracts, and multiplies; each of the three steps has to stay in range.
pub open spec fn drawable(stack: Folded) -> bool {
    second_weight(stack.stack) matches Some(number) ==> {
        let limit = isize::MAX as int / COLOR_STEPS as int;
        &&& number <= isize::MAX
        &&& stack.weight <= isize::MAX
        &&& -limit <= stack.weight - number <= limit
    }
}

/// The weights of the first `n` stacks added up.
pub open spec fn weight_sum(stacks: Seq<Folded>, n: int) -> nat
    decreases n,
{
    if n <= 0 {
        0
    } else {
        weight_sum(stacks, n - 1) + stacks[n - 1].weight as nat
    }
}

/// Whether stacks can be drawn together.
pub open spec fn all_drawable(stacks: Seq<Folded>) -> bool {
    &&& weight_sum(stacks, stacks.len() as int) <= u64::MAX
    &&& forall|i: int| 0 <= i < stacks.len() ==> drawable(#[trigger] stacks[i])
}

fn is_space(c: char) -> (space: bool)
    ensures
        space == crate::text::is_white_space(c),
{
    ('\u{9}' <= c && c <= '\u{d}') || c == ' ' || c == '\u{85}' || c == '\u{a0}' || c == '\u{1680}'
        || ('\u{2000}' <= c && c <= '\u{200a}') || c == '\u{2028}' || c == '\u{2029}' || c
        == '\u{202f}' || c == '\u{205f}' || c == '\u{3000}'
}

fn part_of(text: &Vec<char>, from: usize, to: usize) -> (part: Vec<char>)
    requires
        from <= to <= text@.len(),
    ensures
        part@ == text@.subrange(from as int, to as int),
{
    let mut part: Vec<char> = Vec::new();
    let mut i: usize = from;
    while i < to
        invariant
            from <= i <= to <= text@.len(),
            part@ == text@.subrange(from as int, i as int),
        decreases to - i,
    {
        part.push(text[i]);
        i += 1;
        assert(part@ =~= text@.subrange(from as int, i as int));
    }
    part
}

fn without_leading_space(text: &Vec<char>) -> (rest: Vec<char>)
    ensures
        rest@ == text@.skip(skip_space(text@, 0)),
{
    let mut from: usize = 0;
    while from < text.len() && is_space(text[from])
        invariant
            from <= text@.len(),
            skip_space(text@, from as int) == skip_space(text@, 0),
        decreases text@.len() - from,
    {
        from += 1;
    }
    let rest = part_of(text, from, text.len());
    assert(rest@ =~= text@.skip(from as int));
    rest
}

fn first_part(text: &Vec<char>) -> (part: Vec<char>)
    ensures
        ({
            let first = text@.take(crate::text::first_index(text@, ';', 0));
            part@ == first.take(skip_space_back(first, first.len() as int))
        }),
{
    let end: usize = find_first(text, ';');
    let ghost first = text@.take(end as int);
    let mut to: usize = end;
    while to > 0 && is_space(text[to - 1])
        invariant
            to <= end <= text@.len(),
            first == text@.take(end as int),
            skip_space_back(first, to as int) == skip_space_back(first, end as int),
        decreases to,
    {
        assert(first[to - 1] == text@[to - 1]);
        to -= 1;
    }
    assert(to > 0 ==> first[to - 1] == text@[to - 1]);
    let part = part_of(text, 0, to);
    assert(part@ =~= first.take(to as int));
    part
}

fn find_last_word(text: &Vec<char>) -> (word: Option<Vec<char>>)
    ensures
        match word {
            Some(word) => last_word(text@) == Some(word@),
            None => last_word(text@) is None,
        },
{
    let len: usize = text.len();
    match find_last(text, ' ') {
        Some(space) => {
            let word = part_of(text, space + 1, len);
            assert(word@ =~= text@.skip(space + 1));
            Some(word)
        },
        None => None,
    }
}

fn check_number(word: &Vec<char>) -> (number: bool)
    ensures
        number == is_number(word@),
{
    if word.len() == 0 {
        return false;
    }
    let mut pointed: bool = false;
    let mut i: usize = 0;
    while i < word.len()
        invariant
            i <= word@.len(),
            pointed == exists|j: int| 0 <= j < i && #[trigger] word@[j] == '.',
            forall|j: int|
                0 <= j < i ==> '0' <= #[trigger] word@[j] <= '9' || word@[j] == '.',
            forall|j: int, k: int|
                0 <= j < k < i && #[trigger] word@[j] == '.' ==> #[trigger] word@[k] != '.',
        decreases word@.len() - i,
    {
        let c: char = word[i];
        if c == '.' {
            if pointed {
                proof {
                    let j = choose|j: int| 0 <= j < i && #[trigger] word@[j] == '.';
                    assert(word@[j] == '.' && word@[i as int] == '.');
                }
                return false;
            }
            pointed = true;
        } else if c < '0' || c > '9' {
            assert(word@[i as int] == c);
            return false;
        }
        i += 1;
    }
    true
}

proof fn lemma_value_grows(digits: Seq<char>, m: int, n: int)
    requires
        0 <= m <= n <= digits.len(),
        forall|i: int| 0 <= i < digits.len() ==> '0' <= #[trigger] digits[i] <= '9',
    ensures
        0 <= crate::text::value_of(digits.take(m), 10) <= crate::text::value_of(
            digits.take(n),
            10,
        ),
    decreases n,
{
    if n > 0 {
        assert(digits.take(n).drop_last() =~= digits.take(n - 1));
        assert(digits.take(n).last() == digits[n - 1]);
        if m < n {
            lemma_value_grows(digits, m, n - 1);
        } else {
            lemma_value_grows(digits, n - 1, n - 1);
        }
    }
}

fn read_whole_number(word: &Vec<char>) -> (number: Option<u64>)
    requires
        is_number(word@),
    ensures
        match number {
            Some(number) => whole_number(word@) == Some(number as nat),
            None => whole_number(word@) is None,
        },
{
    let end: usize = find_first(word, '.');
    let ghost digits = word@.take(end as int);
    proof {
        lemma_before_first(word@, '.', 0);
        assert forall|i: int| 0 <= i < digits.len() implies '0' <= #[trigger] digits[i] <= '9' by {
            assert(word@[i] != '.');
        }
    }
    if end == 0 {
        return None;
    }
    let mut number: u64 = 0;
    let mut i: usize = 0;
    while i < end
        invariant
            i <= end <= word@.len(),
            digits == word@.take(end as int),
            digits.len() == end,
            end > 0,
            end == crate::text::first_index(word@, '.', 0),
            forall|j: int| 0 <= j < digits.len() ==> '0' <= #[trigger] digits[j] <= '9',
            number == crate::text::value_of(digits.take(i as int), 10),
        decreases end - i,
    {
        let c: char = word[i];
        assert(digits[i as int] == c);
        let digit: u64 = c as u64 - 48;
        proof {
            assert(digits.take(i + 1).drop_last() =~= digits.take(i as int));
            assert(digits.take(i + 1).last() == c);
            lemma_value_grows(digits, i + 1, end as int);
            assert(digits.take(end as int) =~= digits);
        }
        let more: Option<u64> = match number.checked_mul(10) {
            Some(tens) => tens.checked_add(digit),
            None => None,
        };
        match more {
            Some(more) => {
                number = more;
            },
            None => {
                return None;
            },
        }
        i += 1;
    }
    assert(digits.take(end as int) =~= digits);
    Some(number)
}

proof fn lemma_before_first(text: Seq<char>, c: char, from: int)
    requires
        0 <= from <= text.len(),
    ensures
        from <= crate::text::first_index(text, c, from) <= text.len(),
        forall|i: int| from <= i < crate::text::first_index(text, c, from) ==> text[i] != c,
    decreases text.len() - from,
{
    if from < text.len() && text[from] != c {
        lemma_before_first(text, c, from + 1);
    }
}

fn read_second_weight(stack: &str) -> (number: Option<u64>)
    ensures
        match number {
            Some(number) => second_weight(stack@) == Some(number as nat),
            None => second_weight(stack@) is None,
        },
{
    let chars = chars_of(stack);
    let text = without_leading_space(&chars);
    if let Some(word) = find_last_word(&text) {
        if check_number(&word) {
            return read_whole_number(&word);
        }
    }
    let part = first_part(&text);
    if let Some(word) = find_last_word(&part) {
        if check_number(&word) {
            return read_whole_number(&word);
        }
    }
    None
}

fn is_drawable_stack(stack: &FoldedStack) -> (fits: bool)
    ensures
        fits == drawable(stack@),
{
    match read_second_weight(stack.stack.as_str()) {
        Some(number) => {
            let max: u64 = isize::MAX as u64;
            let weight: u64 = stack.weight;
            let apart: u64 = if number <= weight {
                weight - number
            } else {
                number - weight
            };
            number <= max && weight <= max && apart <= max / COLOR_STEPS
        },
        None => true,
    }
}

impl FlamePlan {
    /// Whether the stacks can be drawn together.
    pub fn is_drawable(&self) -> (fits: bool)
        ensures
            fits == all_drawable(self.folded()),
    {
        let ghost folded = self.folded();
        let mut sum: u64 = 0;
        let mut i: usize = 0;
        while i < self.stacks.len()
            invariant
                i <= self.stacks@.len(),
                folded == self.folded(),
                sum == weight_sum(folded, i as int),
                forall|j: int| 0 <= j < i ==> drawable(#[trigger] folded[j]),
            decreases self.stacks@.len() - i,
        {
            assert(folded[i as int] == self.stacks@[i as int]@);
            if !is_drawable_stack(&self.stacks[i]) {
                return false;
            }
            match sum.checked_add(self.stacks[i].weight) {
                Some(more) => {
                    sum = more;
                },
                None => {
                    proof {
                        lemma_weight_sum(folded, i + 1, folded.len() as int);
                    }
                    return false;
                },
            }
            i += 1;
        }
        true
    }
}

proof fn lemma_weight_sum(stacks: Seq<Folded>, m: int, n: int)
    requires
        0 <= m <= n,
    ensures
        weight_sum(stacks, m) <= weight_sum(stacks, n),
    decreases n,
{
    if m < n {
        lemma_weight_sum(stacks, m, n - 1);
    }
}

/// The error of the standard library's readers and writers.
#[verifier::external_type_specification]
#[verifier::external_body]
pub struct ExIoError(std::io::Error);

/// Whether `inferno` finds folded lines unfit for a picture.
pub uninterp spec fn drawing_fails(lines: Seq<Seq<char>>, reverse_stack_order: bool) -> bool;

/// What `inferno` writes for folded lines, under the name of their count and the order of
/// their stacks, when its generator of random numbers gives `draws`; where the lines are
/// unfit, what it writes before it fails.
pub uninterp spec fn picture(
    lines: Seq<Seq<char>>,
    count_name: Seq<char>,
    reverse_stack_order: bool,
    draws: Seq<u64>,
) -> Seq<u8>;

/// The texts of some lines.
pub open spec fn line_texts(lines: Seq<&str>) -> Seq<Seq<char>> {
    lines.map_values(|line: &str| line@)
}

/// `inferno::flamegraph::from_lines` draws folded lines as an SVG picture, under default
/// options but for the name of the count and the order of the stacks. What it writes is a
/// function of the lines, the name, the order, and the numbers that its generator gives to
/// pick the colors; which numbers it gives is left open. Whether the lines are unfit for a
/// picture is a function of the lines and their order. Both stand under a name. Writing to
/// memory does not fail, and a picture is not empty. With the last frame of a stack at the
/// bottom, its arithmetic stays in range for the weights and lines of `all_drawable`; in the
/// other order it reads other numbers as weights.
#[verifier::external_body]
fn draw(lines: &Vec<&str>, count_name: &String, reverse_stack_order: bool) -> (drawn: (
    Vec<u8>,
    Result<(), std::io::Error>,
))
    requires
        reverse_stack_order,
        exists|stacks: Seq<Folded>| #[trigger]
            all_drawable(stacks) && are_lines(lines@, stacks),
    ensures
        drawn.1 is Err <==> drawing_fails(line_texts(lines@), reverse_stack_order),
        exists|draws: Seq<u64>|
            drawn.0@ == #[trigger] picture(
                line_texts(lines@),
                count_name@,
                reverse_stack_order,
                draws,
            ),
        drawn.1 is Ok ==> drawn.0@.len() > 0,
{
    let mut options = inferno::flamegraph::Options::default();
    options.reverse_stack_order = reverse_stack_order;
    options.count_name = count_name.clone();
    let mut svg = Vec::new();
    let result = inferno::flamegraph::from_lines(&mut options, lines.iter().copied(), &mut svg);
    (svg, result)
}

/// Whether the lines are those of the stacks.
pub open spec fn are_lines(lines: Seq<&str>, stacks: Seq<Folded>) -> bool {
    &&& lines.len() == stacks.len()
    &&& forall|i: int|
        0 <= i < lines.len() ==> (#[trigger] lines[i])@ == crate::resolver::folded_line(
            stacks[i].stack,
            stacks[i].weight,
        )
}

/// Why there is no flame graph.
#[derive(Debug)]
pub enum FlameError {
    /// The stacks could not be drawn. What was written before that says so to a viewer.
    Draw { error: std::io::Error, written: Vec<u8> },
}

/// What comes of a picture that was drawn, or not.
pub fn drawn(svg: Vec<u8>, result: Result<(), std::io::Error>) -> (picture: Result<
    Option<Vec<u8>>,
    FlameError,
>)
    ensures
        picture == (match result {
            Ok(_) => Ok::<Option<Vec<u8>>, FlameError>(Some(svg)),
            Err(error) => Err::<Option<Vec<u8>>, FlameError>(
                FlameError::Draw { error, written: svg },
            ),
        }),
{
    match result {
        Ok(_) => Ok(Some(svg)),
        Err(error) => Err(FlameError::Draw { error, written: svg }),
    }
}

/// The folded lines of some stacks.
pub open spec fn lines_of(stacks: Seq<Folded>) -> Seq<Seq<char>> {
    stacks.map_values(|stack: Folded| crate::resolver::folded_line(stack.stack, stack.weight))
}

impl FlamePlan {
    /// Whether some bytes may be the picture of the plan: which one they are rests on the
    /// colors.
    pub open spec fn pictured(self, bytes: Seq<u8>) -> bool {
        exists|draws: Seq<u64>|
            bytes == #[trigger] picture(
                lines_of(self.folded()),
                self.count_name@,
                self.reverse_stack_order,
                draws,
            )
    }
}

/// The SVG picture of a flame graph; nothing where there is no stack to draw.
pub fn write(plan: &FlamePlan) -> (svg: Result<Option<Vec<u8>>, FlameError>)
    requires
        plan.wf(),
        plan.reverse_stack_order,
        all_drawable(plan.folded()),
    ensures
        if plan.folded().len() == 0 {
            svg == Ok::<Option<Vec<u8>>, FlameError>(None)
        } else if drawing_fails(lines_of(plan.folded()), plan.reverse_stack_order) {
            &&& svg matches Err(FlameError::Draw { error, written })
            &&& plan.pictured(written@)
        } else {
            &&& svg matches Ok(Some(bytes))
            &&& plan.pictured(bytes@)
            &&& bytes@.len() > 0
        },
{
    let ghost folded = plan.folded();
    let mut lines: Vec<&str> = Vec::new();
    let mut i: usize = 0;
    while i < plan.stacks.len()
        invariant
            i <= plan.stacks@.len(),
            plan.wf(),
            folded == plan.folded(),
            lines@.len() == i,
            forall|j: int|
                0 <= j < i ==> (#[trigger] lines@[j])@ == crate::resolver::folded_line(
                    folded[j].stack,
                    folded[j].weight,
                ),
        decreases plan.stacks@.len() - i,
    {
        assert(plan.stacks@[i as int].wf());
        lines.push(plan.stacks[i].line.as_str());
        i += 1;
    }
    if lines.is_empty() {
        return Ok(None);
    }
    assert(are_lines(lines@, folded));
    assert(line_texts(lines@) =~= lines_of(folded));
    let (svg, result) = draw(&lines, &plan.count_name, plan.reverse_stack_order);
    drawn(svg, result)
}

/// Of some entries, every one whose stack has symbols and that weighs something is drawn, with
/// the names of its frames and that weight; all of them in order, and nothing else.
pub proof fn law_drawn_are_all_stacks_with_symbols_and_weight(
    entries: Seq<(u64, Counts)>,
    traces: Map<u32, Seq<Frame>>,
    order_by: OrderBy,
    n: int,
)
    requires
        0 <= n <= entries.len(),
    ensures
        drawn_before(entries, traces, order_by, n) == entries.take(n).filter(
            |entry: (u64, Counts)|
                traces.contains_key((entry.0 % 0x1_0000_0000) as u32) && (match order_by {
                    OrderBy::Count => entry.1.count() as u64,
                    OrderBy::Traffic => entry.1.total,
                }) > 0,
        ).map_values(
            |entry: (u64, Counts)|
                Folded {
                    stack: crate::resolver::folded(traces[(entry.0 % 0x1_0000_0000) as u32]),
                    weight: match order_by {
                        OrderBy::Count => entry.1.count() as u64,
                        OrderBy::Traffic => entry.1.total,
                    },
                },
        ),
    decreases n,
{
    let is_drawn = |entry: (u64, Counts)|
        traces.contains_key((entry.0 % 0x1_0000_0000) as u32) && (match order_by {
            OrderBy::Count => entry.1.count() as u64,
            OrderBy::Traffic => entry.1.total,
        }) > 0;
    let shown = |entry: (u64, Counts)|
        Folded {
            stack: crate::resolver::folded(traces[(entry.0 % 0x1_0000_0000) as u32]),
            weight: match order_by {
                OrderBy::Count => entry.1.count() as u64,
                OrderBy::Traffic => entry.1.total,
            },
        };
    reveal(Seq::filter);
    if n > 0 {
        law_drawn_are_all_stacks_with_symbols_and_weight(entries, traces, order_by, n - 1);
        assert(entries.take(n).drop_last() =~= entries.take(n - 1));
        let before = entries.take(n - 1).filter(is_drawn);
        if is_drawn(entries[n - 1]) {
            assert(before.push(entries[n - 1]).map_values(shown) =~= before.map_values(shown).push(
                shown(entries[n - 1]),
            ));
        }
        assert(drawn_before(entries, traces, order_by, n) =~= entries.take(n).filter(
            is_drawn,
        ).map_values(shown));
    } else {
        assert(drawn_before(entries, traces, order_by, n) =~= entries.take(n).filter(
            is_drawn,
        ).map_values(shown));
    }
}

/// A stack that has symbols and weighs something is drawn, with that weight.
pub proof fn law_stack_with_symbols_and_weight_is_drawn(
    entries: Seq<(u64, Counts)>,
    traces: Map<u32, Seq<Frame>>,
    order_by: OrderBy,
    n: int,
    k: int,
) -> (i: int)
    requires
        0 <= k < n <= entries.len(),
        traces.contains_key((entries[k].0 % 0x1_0000_0000) as u32),
        order_by == OrderBy::Count ==> 0 < entries[k].1.count() <= u64::MAX,
        order_by == OrderBy::Traffic ==> entries[k].1.total > 0,
    ensures
        0 <= i < drawn_before(entries, traces, order_by, n).len(),
        drawn_before(entries, traces, order_by, n)[i].stack == crate::resolver::folded(
            traces[(entries[k].0 % 0x1_0000_0000) as u32],
        ),
        order_by == OrderBy::Count ==> drawn_before(entries, traces, order_by, n)[i].weight
            == entries[k].1.count(),
        order_by == OrderBy::Traffic ==> drawn_before(entries, traces, order_by, n)[i].weight
            == entries[k].1.total,
    decreases n,
{
    if k < n - 1 {
        law_stack_with_symbols_and_weight_is_drawn(entries, traces, order_by, n - 1, k)
    } else {
        drawn_before(entries, traces, order_by, n).len() - 1
    }
}

/// A stack that is drawn is one of the entries, with its names and its weight.
pub proof fn law_drawn_stack_is_an_entry(
    entries: Seq<(u64, Counts)>,
    traces: Map<u32, Seq<Frame>>,
    order_by: OrderBy,
    n: int,
    i: int,
) -> (k: int)
    requires
        0 <= n <= entries.len(),
        0 <= i < drawn_before(entries, traces, order_by, n).len(),
    ensures
        0 <= k < n,
        traces.contains_key((entries[k].0 % 0x1_0000_0000) as u32),
        drawn_before(entries, traces, order_by, n)[i].stack == crate::resolver::folded(
            traces[(entries[k].0 % 0x1_0000_0000) as u32],
        ),
        drawn_before(entries, traces, order_by, n)[i].weight == (match order_by {
            OrderBy::Count => entries[k].1.count() as u64,
            OrderBy::Traffic => entries[k].1.total,
        }),
    decreases n,
{
    if i < drawn_before(entries, traces, order_by, n - 1).len() {
        law_drawn_stack_is_an_entry(entries, traces, order_by, n - 1, i)
    } else {
        n - 1
    }
}

/// Every stack of a table that has symbols and weighs something is drawn, in whatever order the
/// table is walked.
pub proof fn law_picture_shows_the_whole_table(
    stats: Map<u64, Histogram>,
    entries: Seq<(u64, Counts)>,
    traces: Map<u32, Seq<Frame>>,
    order_by: OrderBy,
    word: u64,
) -> (i: int)
    requires
        crate::report::is_listing(stats, false, entries),
        stats.contains_key(word),
        traces.contains_key((word % 0x1_0000_0000) as u32),
        order_by == OrderBy::Count ==> 0 < stats[word]@.count() <= u64::MAX,
        order_by == OrderBy::Traffic ==> stats[word]@.total > 0,
    ensures
        ({
            let drawn = drawn_before(entries, traces, order_by, entries.len() as int);
            &&& 0 <= i < drawn.len()
            &&& drawn[i].stack == crate::resolver::folded(traces[(word % 0x1_0000_0000) as u32])
            &&& order_by == OrderBy::Count ==> drawn[i].weight == stats[word]@.count()
            &&& order_by == OrderBy::Traffic ==> drawn[i].weight == stats[word]@.total
        }),
{
    crate::report::law_listing_holds_each_stack_once(stats, false, entries, word);
    let k = choose|k: int| 0 <= k < entries.len() && (#[trigger] entries[k]).0 == word;
    law_stack_with_symbols_and_weight_is_drawn(
        entries,
        traces,
        order_by,
        entries.len() as int,
        k,
    )
}

/// The weights are named after what they count: events, or the values of the metric.
pub proof fn law_weights_are_named_after_what_they_count(value_label: Seq<char>)
    ensures
        count_name(OrderBy::Count, value_label) == "event count"@,
        count_name(OrderBy::Traffic, value_label) == value_label,
{
}

/// Each stack is a line of its own: its names, a space and its weight.
pub proof fn law_line_is_stack_and_weight(stacks: Seq<Folded>, i: int)
    requires
        0 <= i < stacks.len(),
    ensures
        lines_of(stacks).len() == stacks.len(),
        lines_of(stacks)[i].take(stacks[i].stack.len() as int) == stacks[i].stack,
        lines_of(stacks)[i].len() > stacks[i].stack.len(),
        lines_of(stacks)[i][stacks[i].stack.len() as int] == ' ',
        crate::text::value_of(lines_of(stacks)[i].skip((stacks[i].stack.len() + 1) as int), 10)
            == stacks[i].weight,
{
    let line = lines_of(stacks)[i];
    let stack = stacks[i].stack;
    assert(line.take(stack.len() as int) =~= stack);
    assert(line.skip((stack.len() + 1) as int) =~= crate::text::decimal(stacks[i].weight as nat));
    crate::text::law_decimal_and_hex_read_back(stacks[i].weight as nat);
}

proof fn lemma_skip_space_bounds(text: Seq<char>, from: int)
    requires
        0 <= from <= text.len(),
    ensures
        from <= skip_space(text, from) <= text.len(),
    decreases text.len() - from,
{
    if from < text.len() && crate::text::is_white_space(text[from]) {
        lemma_skip_space_bounds(text, from + 1);
    }
}

proof fn lemma_skip_space_back_bounds(text: Seq<char>, to: int)
    requires
        0 <= to <= text.len(),
    ensures
        0 <= skip_space_back(text, to) <= to,
    decreases to,
{
    if to > 0 && crate::text::is_white_space(text[to - 1]) {
        lemma_skip_space_back_bounds(text, to - 1);
    }
}

/// A stack without a space can be drawn, whatever it weighs.
pub proof fn law_stack_without_space_can_be_drawn(stack: Folded)
    requires
        forall|i: int| 0 <= i < stack.stack.len() ==> #[trigger] stack.stack[i] != ' ',
    ensures
        drawable(stack),
{
    let whole = stack.stack;
    lemma_skip_space_bounds(whole, 0);
    let text = whole.skip(skip_space(whole, 0));
    lemma_before_first(text, ';', 0);
    let first = text.take(crate::text::first_index(text, ';', 0));
    lemma_skip_space_back_bounds(first, first.len() as int);
    let part = first.take(skip_space_back(first, first.len() as int));
    crate::text::law_last_index(text, ' ', text.len() as int);
    crate::text::law_last_index(part, ' ', part.len() as int);
    assert forall|i: int| 0 <= i < text.len() implies #[trigger] text[i] != ' ' by {
        assert(text[i] == whole[i + skip_space(whole, 0)]);
    }
    assert forall|i: int| 0 <= i < part.len() implies #[trigger] part[i] != ' ' by {
        assert(part[i] == text[i]);
    }
}

/// A stack that holds a second weight can be drawn if and only if both weights are signed
/// numbers, and so is a hundred and fifty times their difference.
pub proof fn law_two_weights_can_be_drawn(stack: Folded, number: nat)
    requires
        second_weight(stack.stack) == Some(number),
    ensures
        drawable(stack) <==> {
            &&& number <= isize::MAX
            &&& stack.weight <= isize::MAX
            &&& -isize::MAX <= 150 * (stack.weight - number) <= isize::MAX
        },
{
}

/// Stacks can be drawn together if and only if each of them can be, and their weights add up to
/// no more than the largest number.
pub proof fn law_stacks_can_be_drawn_together(stacks: Seq<Folded>)
    ensures
        all_drawable(stacks) <==> {
            &&& forall|i: int| 0 <= i < stacks.len() ==> drawable(#[trigger] stacks[i])
            &&& stacks.fold_left(0int, |sum: int, stack: Folded| sum + stack.weight) <= u64::MAX
        },
{
    lemma_weight_sum_is_fold(stacks, stacks.len() as int);
    assert(stacks.take(stacks.len() as int) =~= stacks);
}

proof fn lemma_weight_sum_is_fold(stacks: Seq<Folded>, n: int)
    requires
        0 <= n <= stacks.len(),
    ensures
        weight_sum(stacks, n) == stacks.take(n).fold_left(
            0int,
            |sum: int, stack: Folded| sum + stack.weight,
        ),
    decreases n,
{
    if n > 0 {
        lemma_weight_sum_is_fold(stacks, n - 1);
        assert(stacks.take(n).drop_last() =~= stacks.take(n - 1));
    }
}

/// A picture of a plan is one of all its lines, each made of a stack and its weight, under the
/// name of their count and in the order of the plan.
pub proof fn law_picture_is_of_the_plan(plan: FlamePlan, lines: Seq<Seq<char>>, bytes: Seq<u8>)
    requires
        plan.wf(),
        lines.len() == plan.stacks@.len(),
        forall|i: int| 0 <= i < lines.len() ==> #[trigger] lines[i] == plan.stacks@[i].line@,
    ensures
        plan.pictured(bytes) <==> exists|draws: Seq<u64>|
            bytes == #[trigger] picture(
                lines,
                plan.count_name@,
                plan.reverse_stack_order,
                draws,
            ),
        plan.folded().len() == plan.stacks@.len(),
        forall|i: int|
            0 <= i < plan.stacks@.len() ==> plan.folded()[i].stack == (
            #[trigger] plan.stacks@[i]).stack@ && plan.folded()[i].weight == plan.stacks@[i].weight,
{
    assert forall|i: int| 0 <= i < plan.stacks@.len() implies #[trigger] lines_of(plan.folded())[i]
        == lines[i] by {
        assert(plan.stacks@[i].wf());
    }
    assert(lines_of(plan.folded()) =~= lines);
}

proof fn lemma_decimal_word(n: u64)
    ensures
        ({
            let word = crate::text::decimal(n as nat);
            &&& is_number(word)
            &&& whole_number(word) == Some(n as nat)
            &&& forall|i: int| 0 <= i < word.len() ==> #[trigger] word[i] != ' '
        }),
{
    let word = crate::text::decimal(n as nat);
    crate::text::law_decimal_and_hex_read_back(n as nat);
    crate::text::law_numeral_is_made_of_digits(n as nat, 10);
    assert forall|i: int| 0 <= i < word.len() implies '0' <= #[trigger] word[i] <= '9' by {
        assert(crate::text::is_digit(word[i], 10));
    }
    crate::text::law_first_index(word, '.', 0);
    assert(word.take(word.len() as int) =~= word);
}

/// A stack that ends with a space and a number holds a second weight: that number.
pub proof fn law_number_behind_a_space_is_a_second_weight(front: Seq<char>, n: u64)
    requires
        front.len() > 0,
        !crate::text::is_white_space(front.first()),
    ensures
        second_weight(front + seq![' '] + crate::text::decimal(n as nat)) == Some(n as nat),
{
    let word = crate::text::decimal(n as nat);
    let stack = front + seq![' '] + word;
    lemma_decimal_word(n);
    assert(skip_space(stack, 0) == 0);
    assert(stack.skip(0) =~= stack);
    crate::text::law_last_index(stack, ' ', stack.len() as int);
    let space = crate::text::last_index(stack, ' ', stack.len() as int);
    assert(stack[front.len() as int] == ' ');
    assert forall|i: int| front.len() < i < stack.len() implies #[trigger] stack[i] != ' ' by {
        assert(stack[i] == word[i - front.len() - 1]);
    }
    assert(space == front.len());
    assert(stack.skip(space + 1) =~= word);
}

/// A stack whose first name ends with a space and a number holds that number as a second weight,
/// where no space follows.
pub proof fn law_number_in_the_first_name_is_a_second_weight(
    front: Seq<char>,
    n: u64,
    back: Seq<char>,
)
    requires
        front.len() > 0,
        !crate::text::is_white_space(front.first()),
        !front.contains(';'),
        !back.contains(' '),
    ensures
        second_weight(front + seq![' '] + crate::text::decimal(n as nat) + seq![';'] + back)
            == Some(n as nat),
{
    let word = crate::text::decimal(n as nat);
    let part = front + seq![' '] + word;
    let stack = part + seq![';'] + back;
    lemma_decimal_word(n);
    crate::text::law_numeral_is_made_of_digits(n as nat, 10);
    assert(skip_space(stack, 0) == 0);
    assert(stack.skip(0) =~= stack);
    crate::text::law_last_index(stack, ' ', stack.len() as int);
    crate::text::law_last_index(part, ' ', part.len() as int);
    assert(part[front.len() as int] == ' ' && stack[front.len() as int] == ' ');
    assert forall|i: int| front.len() < i < part.len() implies #[trigger] part[i] != ' ' by {
        assert(part[i] == word[i - front.len() - 1]);
    }
    assert forall|i: int| front.len() < i < stack.len() implies #[trigger] stack[i] != ' ' by {
        if i < part.len() {
            assert(stack[i] == part[i]);
        } else if i > part.len() {
            assert(stack[i] == back[i - part.len() - 1]);
            assert(back.contains(back[i - part.len() - 1]));
        }
    }
    let space = front.len() as int;
    assert(crate::text::last_index(stack, ' ', stack.len() as int) == space);
    assert(crate::text::last_index(part, ' ', part.len() as int) == space);
    let rest = stack.skip(space + 1);
    assert(rest[word.len() as int] == ';');
    assert(!is_number(rest));
    crate::text::law_first_index(stack, ';', 0);
    assert(stack[part.len() as int] == ';');
    assert forall|i: int| 0 <= i < part.len() implies #[trigger] stack[i] != ';' by {
        if i < front.len() {
            assert(front.contains(front[i]));
        } else if i > front.len() {
            assert(stack[i] == word[i - front.len() - 1]);
            assert(crate::text::is_digit(word[i - front.len() - 1], 10));
        }
    }
    assert(crate::text::first_index(stack, ';', 0) == part.len());
    assert(stack.take(part.len() as int) =~= part);
    assert(crate::text::is_digit(word[word.len() - 1], 10));
    assert(part[part.len() - 1] == word[word.len() - 1]);
    assert(skip_space_back(part, part.len() as int) == part.len());
    assert(part.take(part.len() as int) =~= part);
    assert(part.skip(space + 1) =~= word);
}

} // verus!

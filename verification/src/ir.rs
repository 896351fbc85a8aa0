//! The intermediate representation: symbols with their repeats folded into counts.
use crate::tokenizer::{
    is_symbol, lemma_symbols_are_symbols, lemma_symbols_concat, lemma_symbols_of_symbols,
    lemma_symbols_push, symbols,
};
use vstd::prelude::*;

verus! {

/// One operation of the tape machine.
///
/// The four counted operations stand for a run of one repeated symbol and carry the
/// length of that run; the other four stand for a single symbol each.
#[derive(Debug, Clone, Copy, PartialEq, Eq)]
pub enum IR {
    /// A run of `>`.
    MovePointerRight(usize),
    /// A run of `<`.
    MovePointerLeft(usize),
    /// A run of `+`.
    Increment(usize),
    /// A run of `-`.
    Decrement(usize),
    /// One `.`.
    Output,
    /// One `,`.
    Input,
    /// One `[`.
    JumpForward,
    /// One `]`.
    JumpBackward,
}

impl IR {
    /// The symbol that the operation stands for.
    pub open spec fn symbol(self) -> char {
        match self {
            IR::MovePointerRight(_) => '>',
            IR::MovePointerLeft(_) => '<',
            IR::Increment(_) => '+',
            IR::Decrement(_) => '-',
            IR::Output => '.',
            IR::Input => ',',
            IR::JumpForward => '[',
            IR::JumpBackward => ']',
        }
    }

    /// How many consecutive symbols the operation stands for.
    pub open spec fn count(self) -> nat {
        match self {
            IR::MovePointerRight(n) | IR::MovePointerLeft(n) | IR::Increment(n) | IR::Decrement(
                n,
            ) => n as nat,
            _ => 1,
        }
    }

    /// Whether the operation carries a count.
    pub open spec fn is_counted(self) -> bool {
        is_repeatable(self.symbol())
    }

    /// An operation never stands for an empty run.
    pub open spec fn well_formed(self) -> bool {
        self.count() >= 1
    }

    /// The run of symbols that the operation stands for.
    pub open spec fn expansion(self) -> Seq<char> {
        Seq::new(self.count(), |k: int| self.symbol())
    }
}

/// Whether runs of the symbol `c` are folded into one counted operation.
pub open spec fn is_repeatable(c: char) -> bool {
    c == '>' || c == '<' || c == '+' || c == '-'
}

/// The operation that stands for `n` consecutive occurrences of the symbol `c`.
/// For a symbol that is not repeatable the count is not recorded. The function is
/// meant for symbols; what it gives for any other character has no meaning.
pub open spec fn operation(c: char, n: usize) -> IR {
    if c == '>' {
        IR::MovePointerRight(n)
    } else if c == '<' {
        IR::MovePointerLeft(n)
    } else if c == '+' {
        IR::Increment(n)
    } else if c == '-' {
        IR::Decrement(n)
    } else if c == '.' {
        IR::Output
    } else if c == ',' {
        IR::Input
    } else if c == '[' {
        IR::JumpForward
    } else {
        IR::JumpBackward
    }
}

/// The number of times `c` is repeated at the very start of `s`.
pub open spec fn run_length(s: Seq<char>, c: char) -> nat
    decreases s.len(),
{
    if s.len() > 0 && s[0] == c {
        1 + run_length(s.skip(1), c)
    } else {
        0
    }
}

/// The symbols that a sequence of operations stands for, run after run.
pub open spec fn expand(ops: Seq<IR>) -> Seq<char>
    decreases ops.len(),
{
    if ops.len() == 0 {
        Seq::empty()
    } else {
        ops[0].expansion() + expand(ops.skip(1))
    }
}

/// The operations for a sequence of characters.
///
/// A repeatable symbol at the front is taken together with every repeat that follows
/// it directly and becomes one counted operation; any other symbol becomes its own
/// operation; a character that is no symbol is passed over (and ends a run).
pub open spec fn encode(s: Seq<char>) -> Seq<IR>
    decreases s.len(),
    via encode_terminates
{
    if s.len() == 0 {
        Seq::empty()
    } else if is_repeatable(s[0]) {
        let n = run_length(s, s[0]);
        seq![operation(s[0], n as usize)] + encode(s.skip(n as int))
    } else if is_symbol(s[0]) {
        seq![operation(s[0], 1)] + encode(s.skip(1))
    } else {
        encode(s.skip(1))
    }
}

#[via_fn]
proof fn encode_terminates(s: Seq<char>) {
    if s.len() > 0 {
        lemma_run_length_is_maximal(s, s[0]);
    }
}

/// A run at the start of `s` lies within `s`, holds nothing but `c`, and cannot be
/// made longer.
pub proof fn lemma_run_length_is_maximal(s: Seq<char>, c: char)
    ensures
        run_length(s, c) <= s.len(),
        forall|k: int| 0 <= k < run_length(s, c) ==> s[k] == c,
        run_length(s, c) == s.len() || s[run_length(s, c) as int] != c,
        s.len() > 0 && s[0] == c ==> run_length(s, c) >= 1,
    decreases s.len(),
{
    if s.len() > 0 && s[0] == c {
        let rest = s.skip(1);
        lemma_run_length_is_maximal(rest, c);
        assert forall|k: int| 0 <= k < run_length(s, c) implies s[k] == c by {
            if k > 0 {
                assert(s[k] == rest[k - 1]);
            }
        }
        let n = run_length(rest, c);
        if n != rest.len() {
            assert(rest[n as int] == s[n as int + 1]);
        }
    }
}

/// What [`encode`] does with the front of a sequence: how many characters it takes
/// and which operations it makes of them.
proof fn lemma_encode_unfold(s: Seq<char>) -> (n: int)
    requires
        0 < s.len() <= usize::MAX,
    ensures
        1 <= n <= s.len(),
        forall|k: int| 0 <= k < n ==> #[trigger] s[k] == s[0],
        n == s.len() || !is_repeatable(s[0]) || s[n] != s[0],
        is_repeatable(s[0]) ==> n == run_length(s, s[0]),
        !is_repeatable(s[0]) ==> n == 1,
        is_symbol(s[0]) ==> encode(s) == seq![operation(s[0], n as usize)] + encode(s.skip(n)),
        !is_symbol(s[0]) ==> encode(s) == encode(s.skip(n)),
        symbols(s) == symbols(s.take(n)) + symbols(s.skip(n)),
        is_symbol(s[0]) ==> symbols(s.take(n)) == operation(s[0], n as usize).expansion(),
        !is_symbol(s[0]) ==> symbols(s.take(n)) == Seq::<char>::empty(),
{
    let c = s[0];
    let n: int = if is_repeatable(c) {
        run_length(s, c) as int
    } else {
        1
    };
    lemma_run_length_is_maximal(s, c);
    let front = s.take(n);
    assert(front + s.skip(n) =~= s);
    lemma_symbols_concat(front, s.skip(n));
    if is_symbol(c) {
        lemma_symbols_of_symbols(front);
        assert(front =~= operation(c, n as usize).expansion());
    } else {
        lemma_symbols_push(Seq::<char>::empty(), c);
        assert(Seq::<char>::empty().push(c) =~= front);
        assert(symbols(Seq::<char>::empty()) =~= Seq::<char>::empty()) by {
            reveal(Seq::filter);
        }
    }
    n
}

/// Expanding the operations made of `s` gives back the symbols of `s`: nothing is
/// lost or added by folding runs into counts.
pub proof fn lemma_expand_encode(s: Seq<char>)
    requires
        s.len() <= usize::MAX,
    ensures
        expand(encode(s)) == symbols(s),
    decreases s.len(),
{
    if s.len() == 0 {
        assert(symbols(s) =~= Seq::<char>::empty()) by {
            reveal(Seq::filter);
        }
    } else {
        let n = lemma_encode_unfold(s);
        lemma_expand_encode(s.skip(n));
        if is_symbol(s[0]) {
            assert(encode(s).skip(1) =~= encode(s.skip(n)));
        } else {
            assert(symbols(s) =~= symbols(s.skip(n)));
        }
    }
}

/// Every operation made by [`encode`] stands for at least one symbol.
pub proof fn lemma_encode_well_formed(s: Seq<char>)
    requires
        s.len() <= usize::MAX,
    ensures
        forall|k: int| 0 <= k < encode(s).len() ==> #[trigger] encode(s)[k].well_formed(),
    decreases s.len(),
{
    if s.len() > 0 {
        let n = lemma_encode_unfold(s);
        let rest = encode(s.skip(n));
        lemma_encode_well_formed(s.skip(n));
        assert forall|k: int| 0 <= k < encode(s).len() implies #[trigger] encode(
            s,
        )[k].well_formed() by {
            if is_symbol(s[0]) && k > 0 {
                assert(encode(s)[k] == rest[k - 1]);
            }
        }
    }
}

/// Folding the symbols of a text into operations and expanding these again gives the
/// symbols back, one for one.
pub proof fn lemma_round_trip(source: Seq<char>)
    requires
        symbols(source).len() <= usize::MAX,
    ensures
        expand(encode(symbols(source))) == symbols(source),
{
    let tokens = symbols(source);
    lemma_symbols_are_symbols(source);
    lemma_symbols_of_symbols(tokens);
    lemma_expand_encode(tokens);
}

/// Runs are folded whole: among the operations made of symbols alone, a counted
/// operation is never followed by another one for the same symbol.
pub proof fn lemma_encode_folds_whole_runs(s: Seq<char>)
    requires
        s.len() <= usize::MAX,
        forall|k: int| 0 <= k < s.len() ==> is_symbol(#[trigger] s[k]),
    ensures
        forall|k: int|
            0 <= k < encode(s).len() - 1 && #[trigger] encode(s)[k].is_counted() ==> encode(
                s,
            )[k].symbol() != encode(s)[k + 1].symbol(),
    decreases s.len(),
{
    if s.len() > 0 {
        let n = lemma_encode_unfold(s);
        let t = s.skip(n);
        let rest = encode(t);
        assert forall|k: int| 0 <= k < t.len() implies is_symbol(#[trigger] t[k]) by {
            assert(t[k] == s[k + n]);
        }
        lemma_encode_folds_whole_runs(t);
        assert forall|k: int|
            0 <= k < encode(s).len() - 1 && #[trigger] encode(s)[k].is_counted() implies encode(
            s,
        )[k].symbol() != encode(s)[k + 1].symbol() by {
            assert(encode(s)[k + 1] == rest[k]);
            if k == 0 {
                assert(t.len() > 0);
                assert(t[0] == s[n]);
                let m = lemma_encode_unfold(t);
            } else {
                assert(encode(s)[k] == rest[k - 1]);
            }
        }
    }
}

/// A stretch of `m` repeats of `c` at the start of `s` that cannot be made longer is
/// the run that [`run_length`] measures.
pub proof fn lemma_run_length_exact(s: Seq<char>, c: char, m: nat)
    requires
        m <= s.len(),
        forall|k: int| 0 <= k < m ==> #[trigger] s[k] == c,
        m == s.len() || s[m as int] != c,
    ensures
        run_length(s, c) == m,
    decreases m,
{
    if m > 0 {
        let rest = s.skip(1);
        assert forall|k: int| 0 <= k < m - 1 implies #[trigger] rest[k] == c by {
            assert(rest[k] == s[k + 1]);
        }
        if m != s.len() {
            assert(rest[m - 1] == s[m as int]);
        }
        lemma_run_length_exact(rest, c, (m - 1) as nat);
    }
}

/// There is one way only to write symbols as operations that stand for at least one
/// symbol each and leave no run in pieces, and [`encode`] finds it.
pub proof fn lemma_encode_is_the_only_folding(s: Seq<char>, ops: Seq<IR>)
    requires
        expand(ops) == s,
        forall|k: int| 0 <= k < ops.len() ==> #[trigger] ops[k].well_formed(),
        forall|k: int|
            0 <= k < ops.len() - 1 && #[trigger] ops[k].is_counted() ==> ops[k].symbol() != ops[k
                + 1].symbol(),
    ensures
        ops == encode(s),
    decreases ops.len(),
{
    if ops.len() == 0 {
        assert(ops =~= encode(s));
    } else {
        let op = ops[0];
        let c = op.symbol();
        let m = op.count();
        let later = ops.skip(1);
        let t = expand(later);
        assert(op.well_formed());
        assert(s == op.expansion() + t);
        assert(s[0] == c);
        assert(s.skip(m as int) =~= t);
        assert forall|k: int| 0 <= k < later.len() - 1 && #[trigger] later[k].is_counted() implies later[k].symbol()
            != later[k + 1].symbol() by {
            assert(later[k] == ops[k + 1]);
            assert(ops[k + 1].is_counted());
        }
        assert forall|k: int| 0 <= k < later.len() implies #[trigger] later[k].well_formed() by {
            assert(later[k] == ops[k + 1]);
        }
        lemma_encode_is_the_only_folding(t, later);
        if op.is_counted() {
            assert forall|k: int| 0 <= k < m implies #[trigger] s[k] == c by {
                assert(s[k] == op.expansion()[k]);
            }
            if m != s.len() {
                assert(later.len() > 0);
                assert(later[0].well_formed());
                assert(later[0] == ops[1]);
                assert(t[0] == later[0].expansion()[0]);
                assert(s[m as int] == t[0]);
            }
            lemma_run_length_exact(s, c, m);
        }
        assert(ops =~= seq![op] + later);
    }
}

/// Counts how often the character at `start` is repeated from there on.
fn count_run(tokens: &Vec<char>, start: usize) -> (step: usize)
    requires
        start < tokens.len(),
    ensures
        step == run_length(tokens@.skip(start as int), tokens@[start as int]),
        1 <= step,
        start + step <= tokens.len(),
{
    let c = tokens[start];
    let mut step: usize = 1;
    proof {
        assert(tokens@.skip(start as int).skip(1) =~= tokens@.skip(start + 1));
    }
    while start + step < tokens.len() && tokens[start + step] == c
        invariant
            1 <= step,
            start + step <= tokens.len(),
            c == tokens@[start as int],
            run_length(tokens@.skip(start as int), c) == step + run_length(
                tokens@.skip(start + step),
                c,
            ),
        decreases tokens.len() - step,
    {
        proof {
            assert(tokens@.skip(start + step).skip(1) =~= tokens@.skip(start + step + 1));
        }
        step += 1;
    }
    step
}

/// Folds the symbols among `tokens` into operations, in one pass from left to right.
///
/// Each `>`, `<`, `+` or `-` is taken together with its direct repeats and becomes one
/// counted operation; each `.`, `,`, `[` or `]` becomes one operation; any other
/// character is passed over. Loop brackets are not matched against each other here.
pub fn generate_ir(tokens: Vec<char>) -> (ir: Vec<IR>)
    ensures
        ir@ == encode(tokens@),
        expand(ir@) == symbols(tokens@),
        forall|k: int| 0 <= k < ir@.len() ==> #[trigger] ir@[k].well_formed(),
{
    let mut ir: Vec<IR> = Vec::new();
    let mut i: usize = 0;
    proof {
        assert(tokens@.skip(0) =~= tokens@);
    }
    while i < tokens.len()
        invariant
            i <= tokens.len(),
            encode(tokens@) == ir@ + encode(tokens@.skip(i as int)),
        decreases tokens.len() - i,
    {
        let ghost before = ir@;
        let ghost rest = tokens@.skip(i as int);
        let ghost n = lemma_encode_unfold(rest);
        proof {
            assert(rest.skip(n) =~= tokens@.skip(i + n));
        }
        match tokens[i] {
            '>' => {
                let step = count_run(&tokens, i);
                ir.push(IR::MovePointerRight(step));
                i += step;
            },
            '<' => {
                let step = count_run(&tokens, i);
                ir.push(IR::MovePointerLeft(step));
                i += step;
            },
            '+' => {
                let step = count_run(&tokens, i);
                ir.push(IR::Increment(step));
                i += step;
            },
            '-' => {
                let step = count_run(&tokens, i);
                ir.push(IR::Decrement(step));
                i += step;
            },
            '.' => {
                ir.push(IR::Output);
                i += 1;
            },
            ',' => {
                ir.push(IR::Input);
                i += 1;
            },
            '[' => {
                ir.push(IR::JumpForward);
                i += 1;
            },
            ']' => {
                ir.push(IR::JumpBackward);
                i += 1;
            },
            _ => {
                i += 1;
            },
        }
        proof {
            if is_symbol(rest[0]) {
                assert(ir@ == before.push(operation(rest[0], n as usize)));
                assert(before + (seq![operation(rest[0], n as usize)] + encode(rest.skip(n)))
                    =~= ir@ + encode(rest.skip(n)));
            }
        }
    }
    proof {
        assert(ir@ + encode(tokens@.skip(i as int)) =~= ir@);
        lemma_expand_encode(tokens@);
        lemma_encode_well_formed(tokens@);
    }
    ir
}

} // verus!

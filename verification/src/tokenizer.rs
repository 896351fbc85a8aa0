//! Lexical filtering: keeps the eight meaningful characters of a source text.
use vstd::prelude::*;

verus! {

/// Whether `c` is one of the eight characters that carry meaning.
pub open spec fn is_symbol(c: char) -> bool {
    c == '>' || c == '<' || c == '+' || c == '-' || c == '.' || c == ',' || c == '[' || c == ']'
}

/// The symbols of `text`, in the order in which they occur.
pub open spec fn symbols(text: Seq<char>) -> Seq<char> {
    text.filter(|c: char| is_symbol(c))
}

/// Executable test for [`is_symbol`].
pub fn is_symbol_char(c: char) -> (b: bool)
    ensures
        b == is_symbol(c),
{
    c == '>' || c == '<' || c == '+' || c == '-' || c == '.' || c == ',' || c == '[' || c == ']'
}

/// Appending one character appends it to the symbols, or leaves them as they are.
pub proof fn lemma_symbols_push(text: Seq<char>, c: char)
    ensures
        symbols(text.push(c)) == if is_symbol(c) {
            symbols(text).push(c)
        } else {
            symbols(text)
        },
{
    reveal(Seq::filter);
    assert(text.push(c).drop_last() =~= text);
}

/// The symbols of two texts put together are the symbols of the one followed by the
/// symbols of the other.
pub proof fn lemma_symbols_concat(a: Seq<char>, b: Seq<char>)
    ensures
        symbols(a + b) == symbols(a) + symbols(b),
    decreases b.len(),
{
    if b.len() == 0 {
        reveal(Seq::filter);
        assert(a + b =~= a);
        assert(symbols(a) + symbols(b) =~= symbols(a));
    } else {
        let front = b.drop_last();
        lemma_symbols_concat(a, front);
        lemma_symbols_push(a + front, b.last());
        lemma_symbols_push(front, b.last());
        assert((a + front).push(b.last()) =~= a + b);
        assert(front.push(b.last()) =~= b);
        assert((symbols(a) + symbols(front)).push(b.last()) =~= symbols(a) + symbols(front).push(
            b.last(),
        ));
    }
}

/// Everything that is kept is a symbol.
pub proof fn lemma_symbols_are_symbols(text: Seq<char>)
    ensures
        forall|k: int| 0 <= k < symbols(text).len() ==> is_symbol(#[trigger] symbols(text)[k]),
    decreases text.len(),
{
    reveal(Seq::filter);
    if text.len() > 0 {
        lemma_symbols_are_symbols(text.drop_last());
    }
}

/// A text made of symbols alone is kept whole.
pub proof fn lemma_symbols_of_symbols(text: Seq<char>)
    requires
        forall|k: int| 0 <= k < text.len() ==> is_symbol(#[trigger] text[k]),
    ensures
        symbols(text) == text,
    decreases text.len(),
{
    reveal(Seq::filter);
    if text.len() > 0 {
        let front = text.drop_last();
        assert forall|k: int| 0 <= k < front.len() implies is_symbol(#[trigger] front[k]) by {
            assert(front[k] == text[k]);
        }
        lemma_symbols_of_symbols(front);
        assert(is_symbol(text[text.len() - 1]));
        assert(front.push(text.last()) =~= text);
    }
}

/// The symbols kept are exactly the symbols of the text, in the order of the text:
/// `places[k]` is the place in the text from which the `k`-th of them was taken.
pub proof fn lemma_symbols_keep_order(text: Seq<char>) -> (places: Seq<int>)
    ensures
        places.len() == symbols(text).len(),
        forall|k: int|
            0 <= k < places.len() ==> 0 <= #[trigger] places[k] < text.len() && text[places[k]]
                == symbols(text)[k],
        forall|j: int, k: int|
            0 <= j < k < places.len() ==> #[trigger] places[j] < #[trigger] places[k],
        forall|i: int| 0 <= i < text.len() && is_symbol(#[trigger] text[i]) ==> places.contains(i),
    decreases text.len(),
{
    reveal(Seq::filter);
    if text.len() == 0 {
        Seq::empty()
    } else {
        let front = text.drop_last();
        let last = text.len() - 1;
        let front_places = lemma_symbols_keep_order(front);
        let places = if is_symbol(text[last]) {
            front_places.push(last)
        } else {
            front_places
        };
        assert forall|i: int| 0 <= i < text.len() && is_symbol(#[trigger] text[i]) implies places.contains(
            i,
        ) by {
            if i < last {
                assert(front[i] == text[i]);
                let k = choose|k: int| 0 <= k < front_places.len() && front_places[k] == i;
                assert(places[k] == i);
            } else {
                assert(places[places.len() - 1] == i);
            }
        }
        places
    }
}

/// Drops every character of `code` that is not a symbol and keeps the rest in order.
pub fn tokenize(code: &str) -> (tokens: Vec<char>)
    ensures
        tokens@ == symbols(code@),
        forall|k: int| 0 <= k < tokens@.len() ==> is_symbol(#[trigger] tokens@[k]),
{
    let mut tokens: Vec<char> = Vec::new();
    proof {
        reveal(Seq::filter);
        assert(code@.take(0) =~= Seq::<char>::empty());
    }
    for c in it: code.chars()
        invariant
            it.seq() == code@,
            tokens@ == symbols(code@.take(it.index() as int)),
    {
        proof {
            let i = it.index() as int;
            assert(code@.take(i + 1) =~= code@.take(i).push(c));
            lemma_symbols_push(code@.take(i), c);
        }
        if is_symbol_char(c) {
            tokens.push(c);
        }
    }
    proof {
        assert(code@.take(code@.len() as int) =~= code@);
        lemma_symbols_are_symbols(code@);
    }
    tokens
}

} // verus!

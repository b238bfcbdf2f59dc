//! Signed word expressions such as `king - man + woman`.
use vstd::prelude::*;
use vstd::string::StringExecFns;
use crate::table::{find, lemma_find_in, EntryView, Table};
use crate::vector::{all_of_dim, all_valid, in_limit, valid, VectorError, LIMIT};

verus! {

/// The combined vector of an expression and the words it had to skip.
#[derive(Debug)]
pub struct Evaluation {
    /// The signed sum of the vectors of the known words.
    pub vector: Vec<i64>,
    /// The words of the expression that the table does not hold, in order.
    pub unknown: Vec<String>,
    /// How many words of the expression the table holds; zero means there
    /// was no valid input word.
    pub known: usize,
}

/// The token `+`.
pub open spec fn is_plus(t: Seq<char>) -> bool {
    t == seq!['+']
}

/// The token `-`.
pub open spec fn is_minus(t: Seq<char>) -> bool {
    t == seq!['-']
}

/// Whether words after the first `n` tokens are added (rather than subtracted):
/// the last operator decides, and `+` holds before any.
pub open spec fn adds_after(tokens: Seq<String>, n: int) -> bool
    decreases n,
{
    if n <= 0 {
        true
    } else if is_plus(tokens[n - 1]@) {
        true
    } else if is_minus(tokens[n - 1]@) {
        false
    } else {
        adds_after(tokens, n - 1)
    }
}

/// Component `i` of the signed sum over the first `n` tokens; operators and
/// unknown words contribute nothing.
pub open spec fn expr_total(tokens: Seq<String>, e: Seq<EntryView>, n: int, i: int) -> int
    decreases n,
{
    if n <= 0 {
        0
    } else {
        let t = tokens[n - 1]@;
        let prev = expr_total(tokens, e, n - 1, i);
        if is_plus(t) || is_minus(t) || find(e, t) < 0 {
            prev
        } else if adds_after(tokens, n - 1) {
            prev + e[find(e, t)].1[i]
        } else {
            prev - e[find(e, t)].1[i]
        }
    }
}

/// How many of the first `n` tokens are words that the table holds.
pub open spec fn known_count(tokens: Seq<String>, e: Seq<EntryView>, n: int) -> int
    decreases n,
{
    if n <= 0 {
        0
    } else {
        let t = tokens[n - 1]@;
        let prev = known_count(tokens, e, n - 1);
        if !is_plus(t) && !is_minus(t) && find(e, t) >= 0 {
            prev + 1
        } else {
            prev
        }
    }
}

/// The words among the first `n` tokens that the table does not hold.
pub open spec fn unknown_words(tokens: Seq<String>, e: Seq<EntryView>, n: int) -> Seq<Seq<char>>
    decreases n,
{
    if n <= 0 {
        seq![]
    } else {
        let t = tokens[n - 1]@;
        let prev = unknown_words(tokens, e, n - 1);
        if !is_plus(t) && !is_minus(t) && find(e, t) < 0 {
            prev.push(t)
        } else {
            prev
        }
    }
}

/// Evaluates a token sequence of words and `+` / `-` operators: the sum of the
/// known words' vectors, each with the sign of the operator before it. Fails
/// only when a component of the result leaves `[-LIMIT, LIMIT]`.
pub fn evaluate(tokens: &Vec<String>, table: &Table) -> (r: Result<Evaluation, VectorError>)
    requires
        table.wf(),
    ensures
        r is Ok <==> forall|i: int|
            0 <= i < table.dimension() ==> in_limit(
                #[trigger] expr_total(tokens@, table.entries(), tokens@.len() as int, i),
            ),
        r is Err ==> r->Err_0 == VectorError::OutOfRange,
        r is Ok ==> {
            let ev = r->Ok_0;
            &&& ev.vector@.len() == table.dimension()
            &&& forall|i: int|
                0 <= i < table.dimension() ==> ev.vector@[i] == #[trigger] expr_total(
                    tokens@,
                    table.entries(),
                    tokens@.len() as int,
                    i,
                )
            &&& ev.unknown@.map_values(|s: String| s@) == unknown_words(
                tokens@,
                table.entries(),
                tokens@.len() as int,
            )
            &&& ev.known == known_count(tokens@, table.entries(), tokens@.len() as int)
        },
{
    let plus = <String as StringExecFns>::from_str("+");
    let minus = <String as StringExecFns>::from_str("-");
    proof {
        reveal_strlit("+");
        reveal_strlit("-");
    }
    let ghost e = table.entries();
    let d = table.dim();
    let mut acc: Vec<i128> = Vec::new();
    let mut i: usize = 0;
    while i < d
        invariant
            i <= d,
            acc@.len() == i,
            forall|k: int| 0 <= k < i ==> acc@[k] == 0,
        decreases d - i,
    {
        acc.push(0);
        i += 1;
    }
    let mut unknown: Vec<String> = Vec::new();
    let mut known: usize = 0;
    let mut adding = true;
    let mut n: usize = 0;
    while n < tokens.len()
        invariant
            table.wf(),
            e == table.entries(),
            d == table.dimension(),
            plus@ == seq!['+'],
            minus@ == seq!['-'],
            n <= tokens@.len(),
            acc@.len() == d,
            adding == adds_after(tokens@, n as int),
            forall|k: int| 0 <= k < d ==> acc@[k] == expr_total(tokens@, e, n as int, k),
            forall|k: int| 0 <= k < d ==> -(n * LIMIT) <= #[trigger] acc@[k] <= n * LIMIT,
            unknown@.map_values(|s: String| s@) == unknown_words(tokens@, e, n as int),
            known == known_count(tokens@, e, n as int),
            known <= n,
        decreases tokens@.len() - n,
    {
        let t = &tokens[n];
        if *t == plus {
            adding = true;
        } else if *t == minus {
            adding = false;
        } else {
            proof {
                lemma_find_in(e, t@, e.len() as int);
            }
            match table.lookup(t) {
                None => {
                    unknown.push(t.clone());
                    assert(unknown@.map_values(|s: String| s@) =~= unknown_words(
                        tokens@,
                        e,
                        n as int,
                    ).push(t@));
                },
                Some(w) => {
                    known = known + 1;
                    let v = table.vector(w);
                    let mut i: usize = 0;
                    while i < d
                        invariant
                            table.wf(),
                            e == table.entries(),
                            d == table.dimension(),
                            n < tokens@.len(),
                            t == tokens@[n as int],
                            w == find(e, t@),
                            0 <= w < e.len(),
                            v@ == e[w as int].1,
                            valid(v@),
                            v@.len() == d,
                            adding == adds_after(tokens@, n as int),
                            i <= d,
                            acc@.len() == d,
                            forall|k: int| 0 <= k < i ==> acc@[k] == if adding {
                                expr_total(tokens@, e, n as int, k) + v@[k]
                            } else {
                                expr_total(tokens@, e, n as int, k) - v@[k]
                            },
                            forall|k: int| i <= k < d ==> acc@[k] == expr_total(tokens@, e, n as int, k),
                            forall|k: int| 0 <= k < i ==> -((n + 1) * LIMIT) <= #[trigger] acc@[k] <= (n + 1) * LIMIT,
                            forall|k: int| i <= k < d ==> -(n * LIMIT) <= #[trigger] acc@[k] <= n * LIMIT,
                        decreases d - i,
                    {
                        assert(in_limit(v@[i as int] as int));
                        let x = if adding {
                            acc[i] + v[i] as i128
                        } else {
                            acc[i] - v[i] as i128
                        };
                        acc.set(i, x);
                        i += 1;
                    }
                },
            }
        }
        n += 1;
    }
    let mut out: Vec<i64> = Vec::new();
    let mut i: usize = 0;
    while i < d
        invariant
            e == table.entries(),
            d == table.dimension(),
            n == tokens@.len(),
            i <= d,
            acc@.len() == d,
            out@.len() == i,
            forall|k: int| 0 <= k < d ==> acc@[k] == expr_total(tokens@, e, n as int, k),
            forall|k: int| 0 <= k < i ==> out@[k] == #[trigger] expr_total(tokens@, e, n as int, k),
            forall|k: int| 0 <= k < i ==> in_limit(#[trigger] expr_total(tokens@, e, n as int, k)),
        decreases d - i,
    {
        let x = acc[i];
        if x < -(LIMIT as i128) || x > LIMIT as i128 {
            assert(!in_limit(expr_total(tokens@, e, n as int, i as int)));
            return Err(VectorError::OutOfRange);
        }
        out.push(x as i64);
        i += 1;
    }
    Ok(Evaluation { vector: out, unknown, known })
}

/// Adding a word's vector and then subtracting another's gives the first
/// back: `x + y - y` evaluates to the vector of `x`.
pub proof fn law_add_then_subtract_expression(tokens: Seq<String>, e: Seq<EntryView>)
    requires
        tokens.len() == 5,
        is_plus(tokens[1]@),
        is_minus(tokens[3]@),
        tokens[4]@ == tokens[2]@,
        !is_plus(tokens[0]@) && !is_minus(tokens[0]@),
        !is_plus(tokens[2]@) && !is_minus(tokens[2]@),
        find(e, tokens[0]@) >= 0,
        find(e, tokens[2]@) >= 0,
    ensures
        forall|i: int| #[trigger] expr_total(tokens, e, 5, i) == e[find(e, tokens[0]@)].1[i],
{
    assert forall|i: int| #[trigger] expr_total(tokens, e, 5, i) == e[find(e, tokens[0]@)].1[i] by {
        assert(adds_after(tokens, 0));
        assert(adds_after(tokens, 1));
        assert(adds_after(tokens, 2));
        assert(adds_after(tokens, 3));
        assert(tokens[3]@[0] == '-');
        assert(!is_plus(tokens[3]@));
        assert(!adds_after(tokens, 4));
        assert(expr_total(tokens, e, 0, i) == 0);
        assert(expr_total(tokens, e, 1, i) == e[find(e, tokens[0]@)].1[i]);
        assert(expr_total(tokens, e, 2, i) == expr_total(tokens, e, 1, i));
        assert(expr_total(tokens, e, 3, i) == expr_total(tokens, e, 2, i) + e[find(e, tokens[2]@)].1[i]);
        assert(expr_total(tokens, e, 4, i) == expr_total(tokens, e, 3, i));
    }
}

/// The vectors of the known words of a list, and the words the table lacks.
#[derive(Debug)]
pub struct Gathered {
    /// The vectors of the known words, in the order of the words.
    pub vectors: Vec<Vec<i64>>,
    /// The words the table does not hold, in order.
    pub unknown: Vec<String>,
}

/// The vectors of the words among the first `n` that the table holds.
pub open spec fn known_vectors(words: Seq<String>, e: Seq<EntryView>, n: int) -> Seq<Seq<i64>>
    decreases n,
{
    if n <= 0 {
        seq![]
    } else {
        let prev = known_vectors(words, e, n - 1);
        let f = find(e, words[n - 1]@);
        if f >= 0 {
            prev.push(e[f].1)
        } else {
            prev
        }
    }
}

/// The words among the first `n` that the table does not hold.
pub open spec fn missing_words(words: Seq<String>, e: Seq<EntryView>, n: int) -> Seq<Seq<char>>
    decreases n,
{
    if n <= 0 {
        seq![]
    } else {
        let prev = missing_words(words, e, n - 1);
        if find(e, words[n - 1]@) < 0 {
            prev.push(words[n - 1]@)
        } else {
            prev
        }
    }
}

/// Looks up every word of a list (no operators), for summing or averaging.
pub fn gather(words: &Vec<String>, table: &Table) -> (r: Gathered)
    requires
        table.wf(),
    ensures
        r.vectors@.map_values(|v: Vec<i64>| v@) == known_vectors(words@, table.entries(), words@.len() as int),
        r.unknown@.map_values(|s: String| s@) == missing_words(words@, table.entries(), words@.len() as int),
        all_valid(r.vectors@),
        all_of_dim(r.vectors@, table.dimension() as int),
{
    let ghost e = table.entries();
    let mut vectors: Vec<Vec<i64>> = Vec::new();
    let mut unknown: Vec<String> = Vec::new();
    let mut n: usize = 0;
    while n < words.len()
        invariant
            table.wf(),
            e == table.entries(),
            n <= words@.len(),
            vectors@.map_values(|v: Vec<i64>| v@) == known_vectors(words@, e, n as int),
            unknown@.map_values(|s: String| s@) == missing_words(words@, e, n as int),
            all_valid(vectors@),
            all_of_dim(vectors@, table.dimension() as int),
        decreases words@.len() - n,
    {
        let t = &words[n];
        proof {
            lemma_find_in(e, t@, e.len() as int);
        }
        match table.lookup(t) {
            None => {
                unknown.push(t.clone());
                assert(unknown@.map_values(|s: String| s@) =~= missing_words(words@, e, n as int).push(t@));
            },
            Some(w) => {
                let v = table.vector(w).clone();
                assert(v@ =~= e[w as int].1);
                let ghost before = vectors@;
                vectors.push(v);
                assert(vectors@.map_values(|v: Vec<i64>| v@) =~= before.map_values(|v: Vec<i64>| v@).push(v@));
            },
        }
        n += 1;
    }
    Gathered { vectors, unknown }
}

} // verus!

//! The laws of the matcher and the decoder, stated over the spec-level
//! model (`parse_spec`, `run_opts`, `push_value`) that the executable
//! functions' contracts use, and proved once and for all.

use vstd::prelude::*;

verus! {

use crate::Store;
use crate::State;
use crate::parse_spec;
use crate::push_value;
use crate::run_opts;
use crate::opt::Opt;
use crate::opt::StateOpt;
use crate::opt::token_match;
use crate::val::ValueParser;

/// True when `a` is `b` with zero or more elements removed: every
/// element of `a` occurs in `b`, in the same relative order.
pub open spec fn is_subsequence(a: Seq<Seq<char>>, b: Seq<Seq<char>>) -> bool
    decreases b.len(), a.len(),
{
    if a.len() == 0 {
        true
    } else if b.len() == 0 {
        false
    } else if a[0] == b[0] {
        is_subsequence(a.drop_first(), b.drop_first())
    } else {
        is_subsequence(a, b.drop_first())
    }
}

/// Dropping the head of a subsequence keeps it a subsequence.
proof fn lemma_subseq_tail_left(a: Seq<Seq<char>>, b: Seq<Seq<char>>)
    requires
        is_subsequence(a, b),
        a.len() > 0,
    ensures
        is_subsequence(a.drop_first(), b),
    decreases b.len(), 1int,
{
    if b.len() > 0 {
        if a[0] == b[0] {
            lemma_subseq_grow_right(a.drop_first(), b);
        } else {
            lemma_subseq_tail_left(a, b.drop_first());
            lemma_subseq_grow_right(a.drop_first(), b);
        }
    }
}

/// A subsequence of `b` without its head is a subsequence of `b`.
proof fn lemma_subseq_grow_right(a: Seq<Seq<char>>, b: Seq<Seq<char>>)
    requires
        b.len() > 0,
        is_subsequence(a, b.drop_first()),
    ensures
        is_subsequence(a, b),
    decreases b.len(), 0int,
{
    if a.len() > 0 {
        if a[0] == b[0] {
            lemma_subseq_tail_left(a, b.drop_first());
        }
    }
}

/// A subsequence of a suffix of `b` is a subsequence of `b`.
proof fn lemma_subseq_skip_right(a: Seq<Seq<char>>, b: Seq<Seq<char>>, n: int)
    requires
        0 <= n <= b.len(),
        is_subsequence(a, b.skip(n)),
    ensures
        is_subsequence(a, b),
    decreases n,
{
    if n == 0 {
        assert(b.skip(0) =~= b);
    } else {
        assert(b.drop_first().skip(n - 1) =~= b.skip(n));
        lemma_subseq_skip_right(a, b.drop_first(), n - 1);
        lemma_subseq_grow_right(a, b);
    }
}

/// With no registered options, a parse returns every token unchanged,
/// stores nothing, and cannot fail.
pub proof fn lemma_parse_no_opts(store: Store, toks: Seq<Seq<char>>)
    ensures
        parse_spec(Seq::<Opt>::empty(), store, toks) == (
            store,
            toks,
            Option::<Seq<char>>::None,
        ),
    decreases toks.len(),
{
    let opts = Seq::<Opt>::empty();
    if toks.len() == 0 {
        assert(toks =~= Seq::<Seq<char>>::empty());
    } else {
        let rest = toks.drop_first();
        if rest.len() == 0 {
            assert(seq![toks[0]] =~= toks);
        } else {
            lemma_parse_no_opts(store, rest);
            assert(parse_spec(opts, store, rest) == run_opts(
                opts,
                0,
                store,
                rest[0],
                rest.drop_first(),
                false,
            ));
            assert(seq![toks[0]] + rest =~= toks);
        }
    }
}

/// The boolean decode never fails: any present raw value, the empty
/// placeholder of a switch included, reads as `true`, and absence reads
/// as `false`.
pub proof fn lemma_bool_decode(v: Seq<char>)
    ensures
        <bool as ValueParser>::parse_spec(Some(v)) == Some(true),
        <bool as ValueParser>::parse_spec(Option::<Seq<char>>::None) == Some(false),
{
}

/// A run of the matcher only appends to the store: every state already
/// present stays present, and its values only grow.
proof fn lemma_run_store_grows(
    opts: Seq<Opt>,
    i: int,
    store: Store,
    cur: Seq<char>,
    rest: Seq<Seq<char>>,
    matched: bool,
)
    ensures
        ({
            let r = run_opts(opts, i, store, cur, rest, matched);
            forall|k: State|
                (#[trigger] store.contains_key(k)) ==> r.0.contains_key(k) && store[k].len()
                    <= r.0[k].len()
        }),
    decreases rest.len(), opts.len() - i,
{
    let r = run_opts(opts, i, store, cur, rest, matched);
    if 0 <= i < opts.len() {
        match token_match(opts[i].spec_name(), cur) {
            Option::None => {
                let r2 = run_opts(opts, i + 1, store, cur, rest, matched);
                lemma_run_store_grows(opts, i + 1, store, cur, rest, matched);
                assert(r == r2);
                assert forall|k: State|
                    (#[trigger] store.contains_key(k)) implies r.0.contains_key(k)
                    && store[k].len() <= r.0[k].len() by {
                    assert(r2.0.contains_key(k) && store[k].len() <= r2.0[k].len());
                }
            },
            Option::Some(inline) => {
                let s = opts[i].spec_state();
                if !opts[i].spec_consume() {
                    let store2 = push_value(store, s, Seq::empty());
                    let r2 = run_opts(opts, i + 1, store2, cur, rest, true);
                    lemma_run_store_grows(opts, i + 1, store2, cur, rest, true);
                    assert(r == r2);
                    assert forall|k: State|
                        (#[trigger] store.contains_key(k)) implies r.0.contains_key(k)
                        && store[k].len() <= r.0[k].len() by {
                        assert(store2.contains_key(k));
                        assert(store[k].len() <= store2[k].len());
                        assert(r2.0.contains_key(k) && store2[k].len() <= r2.0[k].len());
                    }
                } else {
                    match inline {
                        Option::Some(v) => {
                            let store2 = push_value(store, s, v);
                            let r2 = run_opts(opts, i + 1, store2, cur, rest, true);
                            lemma_run_store_grows(opts, i + 1, store2, cur, rest, true);
                            assert(r == r2);
                            assert forall|k: State|
                                (#[trigger] store.contains_key(k)) implies r.0.contains_key(k)
                                && store[k].len() <= r.0[k].len() by {
                                assert(store2.contains_key(k));
                                assert(store[k].len() <= store2[k].len());
                                assert(r2.0.contains_key(k) && store2[k].len() <= r2.0[k].len());
                            }
                        },
                        Option::None => {
                            if rest.len() > 0 {
                                let store2 = push_value(store, s, rest[0]);
                                let r2 = run_opts(
                                    opts,
                                    i + 1,
                                    store2,
                                    cur,
                                    rest.drop_first(),
                                    true,
                                );
                                lemma_run_store_grows(
                                    opts,
                                    i + 1,
                                    store2,
                                    cur,
                                    rest.drop_first(),
                                    true,
                                );
                                assert(r == r2);
                                assert forall|k: State|
                                    (#[trigger] store.contains_key(k)) implies r.0.contains_key(
                                    k,
                                ) && store[k].len() <= r.0[k].len() by {
                                    assert(store2.contains_key(k));
                                    assert(store[k].len() <= store2[k].len());
                                    assert(r2.0.contains_key(k) && store2[k].len()
                                        <= r2.0[k].len());
                                }
                            } else {
                                assert(r.0 == store);
                            }
                        },
                    }
                }
            },
        }
    } else if i >= opts.len() && rest.len() > 0 {
        let r2 = run_opts(opts, 0, store, rest[0], rest.drop_first(), false);
        lemma_run_store_grows(opts, 0, store, rest[0], rest.drop_first(), false);
        assert(r.0 == r2.0);
        assert forall|k: State|
            (#[trigger] store.contains_key(k)) implies r.0.contains_key(k) && store[k].len()
            <= r.0[k].len() by {
            assert(r2.0.contains_key(k) && store[k].len() <= r2.0[k].len());
        }
    } else {
        assert(r.0 == store);
    }
}

/// A state no registered definition carries is never touched: the store
/// keeps exactly the entry it had for it, or keeps having none.
proof fn lemma_state_untouched(
    opts: Seq<Opt>,
    i: int,
    store: Store,
    cur: Seq<char>,
    rest: Seq<Seq<char>>,
    matched: bool,
    s: State,
)
    requires
        forall|j: int| 0 <= j < opts.len() ==> (#[trigger] opts[j]).spec_state() != s,
    ensures
        ({
            let r = run_opts(opts, i, store, cur, rest, matched);
            &&& r.0.contains_key(s) == store.contains_key(s)
            &&& (store.contains_key(s) ==> r.0[s] == store[s])
        }),
    decreases rest.len(), opts.len() - i,
{
    if 0 <= i < opts.len() {
        match token_match(opts[i].spec_name(), cur) {
            Option::None => {
                lemma_state_untouched(opts, i + 1, store, cur, rest, matched, s);
            },
            Option::Some(inline) => {
                let st = opts[i].spec_state();
                if !opts[i].spec_consume() {
                    lemma_state_untouched(
                        opts,
                        i + 1,
                        push_value(store, st, Seq::empty()),
                        cur,
                        rest,
                        true,
                        s,
                    );
                } else {
                    match inline {
                        Option::Some(v) => {
                            lemma_state_untouched(
                                opts,
                                i + 1,
                                push_value(store, st, v),
                                cur,
                                rest,
                                true,
                                s,
                            );
                        },
                        Option::None => {
                            if rest.len() > 0 {
                                lemma_state_untouched(
                                    opts,
                                    i + 1,
                                    push_value(store, st, rest[0]),
                                    cur,
                                    rest.drop_first(),
                                    true,
                                    s,
                                );
                            }
                        },
                    }
                }
            },
        }
    } else if i >= opts.len() && rest.len() > 0 {
        lemma_state_untouched(opts, 0, store, rest[0], rest.drop_first(), false, s);
    }
}

/// A state no registered definition carries is never touched by a
/// whole parse: with no entry stored for it, none appears, so its
/// boolean decode stays `false`; with one stored, it keeps its values.
pub proof fn lemma_unregistered_state_untouched(
    opts: Seq<Opt>,
    store: Store,
    toks: Seq<Seq<char>>,
    s: State,
)
    requires
        forall|j: int| 0 <= j < opts.len() ==> (#[trigger] opts[j]).spec_state() != s,
    ensures
        ({
            let r = parse_spec(opts, store, toks);
            &&& r.0.contains_key(s) == store.contains_key(s)
            &&& (store.contains_key(s) ==> r.0[s] == store[s])
        }),
{
    if toks.len() > 0 {
        lemma_state_untouched(opts, 0, store, toks[0], toks.drop_first(), false, s);
    }
}

/// Definitions that do not match the current token change nothing: the
/// run from `i` equals the run from `k`.
proof fn lemma_no_match_skip(
    opts: Seq<Opt>,
    i: int,
    k: int,
    store: Store,
    cur: Seq<char>,
    rest: Seq<Seq<char>>,
    matched: bool,
)
    requires
        0 <= i <= k <= opts.len(),
        forall|j: int| i <= j < k ==> token_match((#[trigger] opts[j]).spec_name(), cur) is None,
    ensures
        run_opts(opts, i, store, cur, rest, matched) == run_opts(
            opts,
            k,
            store,
            cur,
            rest,
            matched,
        ),
    decreases k - i,
{
    if i < k {
        lemma_no_match_skip(opts, i + 1, k, store, cur, rest, matched);
    }
}

/// A registered switch whose name the current token matches records
/// presence for its state: when the run succeeds, the store holds at
/// least one value for that state.
proof fn lemma_switch_records_from(
    opts: Seq<Opt>,
    i: int,
    store: Store,
    cur: Seq<char>,
    rest: Seq<Seq<char>>,
    matched: bool,
    k: int,
)
    requires
        0 <= i <= k < opts.len(),
        !opts[k].spec_consume(),
        token_match(opts[k].spec_name(), cur) is Some,
    ensures
        ({
            let r = run_opts(opts, i, store, cur, rest, matched);
            r.2 is None ==> r.0.contains_key(opts[k].spec_state()) && r.0[opts[k].spec_state()].len()
                > 0
        }),
    decreases k - i,
{
    let r = run_opts(opts, i, store, cur, rest, matched);
    let s = opts[k].spec_state();
    if i == k {
        let store2 = push_value(store, s, Seq::empty());
        let r2 = run_opts(opts, i + 1, store2, cur, rest, true);
        lemma_run_store_grows(opts, i + 1, store2, cur, rest, true);
        assert(r == r2);
        assert(store2.contains_key(s));
        assert(store2[s].len() > 0);
        assert(r2.0.contains_key(s));
        assert(store2[s].len() <= r2.0[s].len());
    } else {
        match token_match(opts[i].spec_name(), cur) {
            Option::None => {
                lemma_switch_records_from(opts, i + 1, store, cur, rest, matched, k);
                assert(r == run_opts(opts, i + 1, store, cur, rest, matched));
            },
            Option::Some(inline) => {
                let st = opts[i].spec_state();
                if !opts[i].spec_consume() {
                    let store2 = push_value(store, st, Seq::empty());
                    lemma_switch_records_from(opts, i + 1, store2, cur, rest, true, k);
                    assert(r == run_opts(opts, i + 1, store2, cur, rest, true));
                } else {
                    match inline {
                        Option::Some(v) => {
                            let store2 = push_value(store, st, v);
                            lemma_switch_records_from(opts, i + 1, store2, cur, rest, true, k);
                            assert(r == run_opts(opts, i + 1, store2, cur, rest, true));
                        },
                        Option::None => {
                            if rest.len() > 0 {
                                let store2 = push_value(store, st, rest[0]);
                                lemma_switch_records_from(
                                    opts,
                                    i + 1,
                                    store2,
                                    cur,
                                    rest.drop_first(),
                                    true,
                                    k,
                                );
                                assert(r == run_opts(
                                    opts,
                                    i + 1,
                                    store2,
                                    cur,
                                    rest.drop_first(),
                                    true,
                                ));
                            } else {
                                assert(r.2 is Some);
                            }
                        },
                    }
                }
            },
        }
    }
}

/// Matching a registered switch records presence for its state, and
/// that presence decodes to boolean `true`.
pub proof fn lemma_switch_records(
    opts: Seq<Opt>,
    store: Store,
    cur: Seq<char>,
    rest: Seq<Seq<char>>,
    k: int,
)
    requires
        0 <= k < opts.len(),
        !opts[k].spec_consume(),
        token_match(opts[k].spec_name(), cur) is Some,
    ensures
        ({
            let r = run_opts(opts, 0, store, cur, rest, false);
            r.2 is None ==> r.0.contains_key(opts[k].spec_state()) && r.0[opts[k].spec_state()].len()
                > 0 && <bool as ValueParser>::parse_spec(Some(r.0[opts[k].spec_state()][0]))
                == Some(true)
        }),
{
    lemma_switch_records_from(opts, 0, store, cur, rest, false, k);
}

/// A consuming option matched in the inline `name=value` form records
/// exactly the inline value and consumes no further token: the rest of
/// the parse continues on the untouched remaining tokens. The recorded
/// value decodes back to itself as a string.
pub proof fn lemma_consume_inline(
    opts: Seq<Opt>,
    store: Store,
    cur: Seq<char>,
    rest: Seq<Seq<char>>,
    k: int,
    v: Seq<char>,
)
    requires
        0 <= k < opts.len(),
        opts[k].spec_consume(),
        token_match(opts[k].spec_name(), cur) == Some(Some(v)),
        forall|j: int|
            #![trigger token_match(opts[j].spec_name(), cur)]
            0 <= j < opts.len() && j != k ==> token_match(opts[j].spec_name(), cur) is None,
    ensures
        run_opts(opts, 0, store, cur, rest, false) == parse_spec(
            opts,
            push_value(store, opts[k].spec_state(), v),
            rest,
        ),
        <String as ValueParser>::parse_spec(Some(v)) == Some(v),
{
    let s = opts[k].spec_state();
    let store2 = push_value(store, s, v);
    lemma_no_match_skip(opts, 0, k, store, cur, rest, false);
    assert(run_opts(opts, k, store, cur, rest, false) == run_opts(
        opts,
        k + 1,
        store2,
        cur,
        rest,
        true,
    ));
    lemma_no_match_skip(opts, k + 1, opts.len() as int, store2, cur, rest, true);
    if rest.len() == 0 {
        assert(run_opts(opts, opts.len() as int, store2, cur, rest, true) == (
            store2,
            Seq::<Seq<char>>::empty(),
            Option::<Seq<char>>::None,
        ));
    } else {
        assert(run_opts(opts, opts.len() as int, store2, cur, rest, true) == run_opts(
            opts,
            0,
            store2,
            rest[0],
            rest.drop_first(),
            false,
        ));
    }
}

/// A consuming option matched by its bare name takes exactly the next
/// token as its value: the rest of the parse continues after that one
/// token. The recorded value decodes back to itself as a string.
pub proof fn lemma_consume_bare(
    opts: Seq<Opt>,
    store: Store,
    cur: Seq<char>,
    rest: Seq<Seq<char>>,
    k: int,
)
    requires
        0 <= k < opts.len(),
        opts[k].spec_consume(),
        token_match(opts[k].spec_name(), cur) == Some(Option::<Seq<char>>::None),
        rest.len() > 0,
        forall|j: int|
            #![trigger token_match(opts[j].spec_name(), cur)]
            0 <= j < opts.len() && j != k ==> token_match(opts[j].spec_name(), cur) is None,
    ensures
        run_opts(opts, 0, store, cur, rest, false) == parse_spec(
            opts,
            push_value(store, opts[k].spec_state(), rest[0]),
            rest.drop_first(),
        ),
        <String as ValueParser>::parse_spec(Some(rest[0])) == Some(rest[0]),
{
    let s = opts[k].spec_state();
    let store2 = push_value(store, s, rest[0]);
    let rest2 = rest.drop_first();
    lemma_no_match_skip(opts, 0, k, store, cur, rest, false);
    assert(run_opts(opts, k, store, cur, rest, false) == run_opts(
        opts,
        k + 1,
        store2,
        cur,
        rest2,
        true,
    ));
    lemma_no_match_skip(opts, k + 1, opts.len() as int, store2, cur, rest2, true);
    if rest2.len() == 0 {
        assert(run_opts(opts, opts.len() as int, store2, cur, rest2, true) == (
            store2,
            Seq::<Seq<char>>::empty(),
            Option::<Seq<char>>::None,
        ));
    } else {
        assert(run_opts(opts, opts.len() as int, store2, cur, rest2, true) == run_opts(
            opts,
            0,
            store2,
            rest2[0],
            rest2.drop_first(),
            false,
        ));
    }
}

/// A consuming option matched by its bare name with no token left fails
/// the run at once with that option, and the store keeps exactly what
/// was recorded before.
pub proof fn lemma_missing_value(opts: Seq<Opt>, store: Store, cur: Seq<char>, k: int)
    requires
        0 <= k < opts.len(),
        opts[k].spec_consume(),
        token_match(opts[k].spec_name(), cur) == Some(Option::<Seq<char>>::None),
        forall|j: int|
            #![trigger token_match(opts[j].spec_name(), cur)]
            0 <= j < opts.len() && j != k ==> token_match(opts[j].spec_name(), cur) is None,
    ensures
        run_opts(opts, 0, store, cur, Seq::empty(), false) == (
            store,
            Seq::<Seq<char>>::empty(),
            Some(opts[k].spec_name()),
        ),
{
    lemma_no_match_skip(opts, 0, k, store, cur, Seq::empty(), false);
}

/// Some consuming option whose bare name the current token matches
/// fails the run when no token remains, whatever stands around it.
proof fn lemma_bare_no_rest(
    opts: Seq<Opt>,
    i: int,
    store: Store,
    cur: Seq<char>,
    matched: bool,
    k: int,
)
    requires
        0 <= i <= k < opts.len(),
        opts[k].spec_consume(),
        token_match(opts[k].spec_name(), cur) == Some(Option::<Seq<char>>::None),
    ensures
        run_opts(opts, i, store, cur, Seq::empty(), matched).2 is Some,
    decreases k - i,
{
    let r = run_opts(opts, i, store, cur, Seq::empty(), matched);
    if i < k {
        match token_match(opts[i].spec_name(), cur) {
            Option::None => {
                lemma_bare_no_rest(opts, i + 1, store, cur, matched, k);
                assert(r == run_opts(opts, i + 1, store, cur, Seq::empty(), matched));
            },
            Option::Some(inline) => {
                let st = opts[i].spec_state();
                if !opts[i].spec_consume() {
                    let store2 = push_value(store, st, Seq::empty());
                    lemma_bare_no_rest(opts, i + 1, store2, cur, true, k);
                    assert(r == run_opts(opts, i + 1, store2, cur, Seq::empty(), true));
                } else {
                    match inline {
                        Option::Some(v) => {
                            let store2 = push_value(store, st, v);
                            lemma_bare_no_rest(opts, i + 1, store2, cur, true, k);
                            assert(r == run_opts(opts, i + 1, store2, cur, Seq::empty(), true));
                        },
                        Option::None => {
                            assert(r.2 is Some);
                        },
                    }
                }
            },
        }
    }
}

/// A consuming option matched bare on the final token fails the whole
/// parse, independent of any earlier tokens that match nothing.
pub proof fn lemma_missing_value_fails(
    opts: Seq<Opt>,
    store: Store,
    front: Seq<Seq<char>>,
    last: Seq<char>,
    k: int,
)
    requires
        0 <= k < opts.len(),
        opts[k].spec_consume(),
        token_match(opts[k].spec_name(), last) == Some(Option::<Seq<char>>::None),
        forall|i: int, j: int|
            #![trigger token_match(opts[j].spec_name(), front[i])]
            0 <= i < front.len() && 0 <= j < opts.len() ==> token_match(
                opts[j].spec_name(),
                front[i],
            ) is None,
    ensures
        parse_spec(opts, store, front.push(last)).2 is Some,
    decreases front.len(),
{
    let toks = front.push(last);
    if front.len() == 0 {
        assert(toks[0] == last);
        assert(toks.drop_first() =~= Seq::<Seq<char>>::empty());
        lemma_bare_no_rest(opts, 0, store, last, false, k);
    } else {
        assert(toks[0] == front[0]);
        let rest = toks.drop_first();
        assert(rest =~= front.drop_first().push(last));
        assert forall|j: int|
            0 <= j < opts.len() implies token_match(
            (#[trigger] opts[j]).spec_name(),
            front[0],
        ) is None by {
            assert(token_match(opts[j].spec_name(), front[0]) is None);
        }
        lemma_no_match_skip(opts, 0, opts.len() as int, store, front[0], rest, false);
        assert(rest.len() > 0);
        assert(run_opts(opts, opts.len() as int, store, front[0], rest, false).2 == run_opts(
            opts,
            0,
            store,
            rest[0],
            rest.drop_first(),
            false,
        ).2);
        assert forall|i2: int, j: int|
            #![trigger token_match(opts[j].spec_name(), front.drop_first()[i2])]
            0 <= i2 < front.drop_first().len() && 0 <= j < opts.len() implies token_match(
            opts[j].spec_name(),
            front.drop_first()[i2],
        ) is None by {
            assert(front.drop_first()[i2] == front[i2 + 1]);
            assert(token_match(opts[j].spec_name(), front[i2 + 1]) is None);
        }
        lemma_missing_value_fails(opts, store, front.drop_first(), last, k);
        assert(parse_spec(opts, store, rest) == run_opts(
            opts,
            0,
            store,
            rest[0],
            rest.drop_first(),
            false,
        ));
    }
}

/// The leftovers of a successful run are a subsequence of the tokens
/// still to be processed.
proof fn lemma_run_leftovers(
    opts: Seq<Opt>,
    i: int,
    store: Store,
    cur: Seq<char>,
    rest: Seq<Seq<char>>,
    matched: bool,
)
    ensures
        ({
            let r = run_opts(opts, i, store, cur, rest, matched);
            r.2 is None ==> (matched ==> is_subsequence(r.1, rest)) && (!matched
                ==> is_subsequence(r.1, seq![cur] + rest))
        }),
    decreases rest.len(), opts.len() - i,
{
    let r = run_opts(opts, i, store, cur, rest, matched);
    let both = seq![cur] + rest;
    assert(both.drop_first() =~= rest);
    if i < 0 {
        assert(is_subsequence(r.1, rest));
        assert(is_subsequence(r.1, both));
    } else if i < opts.len() {
        match token_match(opts[i].spec_name(), cur) {
            Option::None => {
                lemma_run_leftovers(opts, i + 1, store, cur, rest, matched);
                assert(r == run_opts(opts, i + 1, store, cur, rest, matched));
            },
            Option::Some(inline) => {
                let st = opts[i].spec_state();
                if !opts[i].spec_consume() {
                    let store2 = push_value(store, st, Seq::empty());
                    lemma_run_leftovers(opts, i + 1, store2, cur, rest, true);
                    assert(r == run_opts(opts, i + 1, store2, cur, rest, true));
                    if r.2 is None && !matched {
                        lemma_subseq_grow_right(r.1, both);
                    }
                } else {
                    match inline {
                        Option::Some(v) => {
                            let store2 = push_value(store, st, v);
                            lemma_run_leftovers(opts, i + 1, store2, cur, rest, true);
                            assert(r == run_opts(opts, i + 1, store2, cur, rest, true));
                            if r.2 is None && !matched {
                                lemma_subseq_grow_right(r.1, both);
                            }
                        },
                        Option::None => {
                            if rest.len() > 0 {
                                let store2 = push_value(store, st, rest[0]);
                                lemma_run_leftovers(
                                    opts,
                                    i + 1,
                                    store2,
                                    cur,
                                    rest.drop_first(),
                                    true,
                                );
                                assert(r == run_opts(
                                    opts,
                                    i + 1,
                                    store2,
                                    cur,
                                    rest.drop_first(),
                                    true,
                                ));
                                if r.2 is None {
                                    assert(rest.drop_first() =~= rest.skip(1));
                                    lemma_subseq_skip_right(r.1, rest, 1);
                                    if !matched {
                                        lemma_subseq_grow_right(r.1, both);
                                    }
                                }
                            }
                        },
                    }
                }
            },
        }
    } else {
        if rest.len() == 0 {
            if matched {
                assert(is_subsequence(r.1, rest));
                assert(is_subsequence(r.1, both));
            } else {
                assert(r.1 == seq![cur]);
                assert(both =~= seq![cur]);
                assert(r.1.drop_first() =~= Seq::<Seq<char>>::empty());
                assert(is_subsequence(r.1.drop_first(), both.drop_first()));
                assert(is_subsequence(r.1, both));
            }
        } else {
            let t = run_opts(opts, 0, store, rest[0], rest.drop_first(), false);
            lemma_run_leftovers(opts, 0, store, rest[0], rest.drop_first(), false);
            if r.2 is None {
                assert(seq![rest[0]] + rest.drop_first() =~= rest);
                assert(is_subsequence(t.1, rest));
                if matched {
                    assert(r == t);
                } else {
                    assert(r.1 == seq![cur] + t.1);
                    assert((seq![cur] + t.1).drop_first() =~= t.1);
                    assert((seq![cur] + t.1)[0] == both[0]);
                    assert(is_subsequence(r.1, both));
                }
            }
        }
    }
}

/// Tokens that match no registered definition come back as leftovers in
/// their original relative order: on success, the leftover sequence is
/// a subsequence of the input tokens.
pub proof fn lemma_leftovers_in_order(opts: Seq<Opt>, store: Store, toks: Seq<Seq<char>>)
    ensures
        ({
            let r = parse_spec(opts, store, toks);
            r.2 is None ==> is_subsequence(r.1, toks)
        }),
{
    let r = parse_spec(opts, store, toks);
    if toks.len() == 0 {
        assert(is_subsequence(r.1, toks));
    } else {
        lemma_run_leftovers(opts, 0, store, toks[0], toks.drop_first(), false);
        assert(seq![toks[0]] + toks.drop_first() =~= toks);
    }
}

} // verus!
